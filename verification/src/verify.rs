//! VERIFY enforcement on top of the scheduler.
//!
//! The scheduler reads the `verify` slot of a node but does not check it.
//! `run_verified` runs the graph, then, for each node (in id order) with a
//! non-empty `verify` slot, applies the named predicate to the stored
//! output of the slot's `subject` (by default the node itself). The first
//! predicate that fails turns the outcome into a rejection; the graph has
//! run completely by then (the check comes after the run).
//!
//! The business predicates compare numbers read from JSON outputs; they are
//! evaluated by the caller and handed in as a function.

use vstd::prelude::*;
use crate::keyed_map::{keys_sorted, lemma_index_of_unique, lemma_sorted_elements, sorted_elements, KeyedMap};
use crate::parser::{graph_wf, GraphModel, IntentGraph, Node, NodeModel, SlotData, SlotDataModel};
use crate::scheduler::{blocked, run_err, run_ok, spawn_free, ExecutionResult, ModelBackend, Scheduler};
use crate::text::{
    append, chars_to_string, is_blank, seq_lt, str_lt, join, join_strings, owned, str_debug, str_debug_string, str_eq, string_views,
    to_chars, trim_char, trim_char_seq, trim_seq,
};

verus! {

/// The outcome of a run with its VERIFY slots enforced.
#[derive(Debug)]
pub enum VerifiedOutcome {
    Completed(ExecutionResult),
    Rejected { reason: String, partial: ExecutionResult },
}

/// The dates a shelf-life check compares, as ISO date strings.
#[derive(Debug)]
pub struct ShelfLife {
    pub expires: String,
    pub horizon: String,
}

/// The refusal of a shelf life that ends before the horizon.
pub open spec fn shelf_life_message(expires: Seq<char>, horizon: Seq<char>) -> Seq<char> {
    "shelf_life_ok: срок "@ + expires + " раньше горизонта "@ + horizon
}

/// The shelf life reaches past the delivery horizon: ISO dates compare as
/// text, so the expiry must not come before the horizon.
pub fn verify_shelf_life_ok(value: &ShelfLife) -> (res: Result<(), String>)
    ensures
        match res {
            Ok(()) => !seq_lt(value.expires@, value.horizon@),
            Err(m) => seq_lt(value.expires@, value.horizon@) && m@ == shelf_life_message(value.expires@, value.horizon@),
        },
{
    if str_lt(value.expires.as_str(), value.horizon.as_str()) {
        let mut m = owned("shelf_life_ok: срок ");
        append(&mut m, value.expires.as_str());
        append(&mut m, " раньше горизонта ");
        append(&mut m, value.horizon.as_str());
        Err(m)
    } else {
        Ok(())
    }
}

/// A non-blank output passes.
pub fn verify_not_empty(output: &str) -> (res: Result<(), String>)
    ensures
        match res {
            Ok(()) => trim_seq(output@).len() > 0,
            Err(e) => trim_seq(output@).len() == 0 && e@ == "not_empty failed: empty output"@,
        },
{
    if is_blank(output) {
        Err(owned("not_empty failed: empty output"))
    } else {
        Ok(())
    }
}

/// How `{:?}` shows a slot value.
pub open spec fn slot_debug(d: SlotDataModel) -> Seq<char> {
    match d {
        SlotDataModel::Str(v) => "Str("@ + str_debug(v) + ")"@,
        SlotDataModel::Ident(v) => "Ident("@ + str_debug(v) + ")"@,
        SlotDataModel::Cond(f, o, v) => "Cond("@ + str_debug(f) + ", "@ + str_debug(o) + ", "@ + str_debug(v) + ")"@,
        SlotDataModel::Args(p) => "Args(["@ + join(
            p.map_values(|a: (Seq<char>, Seq<char>)| "("@ + str_debug(a.0) + ", "@ + str_debug(a.1) + ")"@),
            ", "@,
        ) + "])"@,
    }
}

fn slot_debug_string(d: &SlotData) -> (res: String)
    ensures
        res@ == slot_debug(d@),
{
    match d {
        SlotData::Str(v) => {
            let mut m = owned("Str(");
            let s = str_debug_string(v.as_str());
            append(&mut m, s.as_str());
            append(&mut m, ")");
            m
        },
        SlotData::Ident(v) => {
            let mut m = owned("Ident(");
            let s = str_debug_string(v.as_str());
            append(&mut m, s.as_str());
            append(&mut m, ")");
            m
        },
        SlotData::Cond(f, o, v) => {
            let mut m = owned("Cond(");
            let a = str_debug_string(f.as_str());
            append(&mut m, a.as_str());
            append(&mut m, ", ");
            let b = str_debug_string(o.as_str());
            append(&mut m, b.as_str());
            append(&mut m, ", ");
            let c = str_debug_string(v.as_str());
            append(&mut m, c.as_str());
            append(&mut m, ")");
            m
        },
        SlotData::Args(pairs) => {
            let ghost pv = crate::parser::pair_views(pairs@);
            let mut parts: Vec<String> = Vec::new();
            for i in 0..pairs.len()
                invariant
                    pv == crate::parser::pair_views(pairs@),
                    parts.len() == i,
                    forall|j: int| 0 <= j < i ==> #[trigger] parts@[j]@ == "("@ + str_debug(pv[j].0) + ", "@ + str_debug(pv[j].1) + ")"@,
            {
                let mut p = owned("(");
                let a = str_debug_string(pairs[i].0.as_str());
                append(&mut p, a.as_str());
                append(&mut p, ", ");
                let b = str_debug_string(pairs[i].1.as_str());
                append(&mut p, b.as_str());
                append(&mut p, ")");
                parts.push(p);
            }
            assert(string_views(parts@) =~= pv.map_values(
                |a: (Seq<char>, Seq<char>)| "("@ + str_debug(a.0) + ", "@ + str_debug(a.1) + ")"@,
            ));
            let mut m = owned("Args([");
            let inner = join_strings(&parts, ", ");
            append(&mut m, inner.as_str());
            append(&mut m, "])");
            m
        },
    }
}

/// One reject as the rejection reason lists it: its cause as `{:?}` shows
/// it, then its reason in brackets (`?` when the reason is not an
/// identifier).
pub open spec fn reject_part(n: NodeModel) -> Seq<char> {
    let cause = if n.slots.dom().contains("cause"@) {
        slot_debug(n.slots["cause"@])
    } else {
        Seq::empty()
    };
    let reason = if n.slots.dom().contains("reason"@) {
        match n.slots["reason"@] {
            SlotDataModel::Ident(r) => r,
            _ => "?"@,
        }
    } else {
        "?"@
    };
    cause + "("@ + reason + ")"@
}

pub open spec fn rejects_reason(rs: Seq<NodeModel>) -> Seq<char> {
    "узел(ы) графа отклонены: "@ + join(rs.map_values(|n: NodeModel| reject_part(n)), ", "@)
}

fn reject_part_string(n: &Node) -> (res: String)
    ensures
        res@ == reject_part(n@),
{
    let mut m = match n.slots.get("cause") {
        Some(c) => slot_debug_string(c),
        None => String::new(),
    };
    append(&mut m, "(");
    match n.slots.get("reason") {
        Some(SlotData::Ident(r)) => append(&mut m, r.as_str()),
        _ => append(&mut m, "?"),
    }
    append(&mut m, ")");
    m
}

fn rejects_reason_string(rejects: &Vec<Node>) -> (res: String)
    ensures
        res@ == rejects_reason(crate::parser::node_views(rejects@)),
{
    let ghost rv = crate::parser::node_views(rejects@);
    let mut parts: Vec<String> = Vec::new();
    for i in 0..rejects.len()
        invariant
            rv == crate::parser::node_views(rejects@),
            parts.len() == i,
            forall|j: int| 0 <= j < i ==> #[trigger] parts@[j]@ == reject_part(rv[j]),
    {
        parts.push(reject_part_string(&rejects[i]));
    }
    assert(string_views(parts@) =~= rv.map_values(|n: NodeModel| reject_part(n)));
    let mut m = owned("узел(ы) графа отклонены: ");
    let inner = join_strings(&parts, ", ");
    append(&mut m, inner.as_str());
    m
}

/// One check a `verify` slot asks for.
#[derive(Debug)]
pub struct VerifyCheck {
    pub node_id: String,
    pub checker: String,
    pub subject: String,
    pub output: String,
}

pub struct CheckModel {
    pub node_id: Seq<char>,
    pub checker: Seq<char>,
    pub subject: Seq<char>,
    pub output: Seq<char>,
}

impl View for VerifyCheck {
    type V = CheckModel;

    open spec fn view(&self) -> CheckModel {
        CheckModel { node_id: self.node_id@, checker: self.checker@, subject: self.subject@, output: self.output@ }
    }
}

pub open spec fn check_views(v: Seq<VerifyCheck>) -> Seq<CheckModel> {
    v.map_values(|c: VerifyCheck| c@)
}

/// The value of the first pair named `k`.
pub open spec fn pair_value(p: Seq<(Seq<char>, Seq<char>)>, k: Seq<char>) -> Option<Seq<char>>
    decreases p.len(),
{
    if p.len() == 0 {
        None
    } else if p[0].0 == k {
        Some(p[0].1)
    } else {
        pair_value(p.drop_first(), k)
    }
}

/// The check a node's `verify` slot asks for, if any: a non-empty argument
/// list with a `checker`; the subject is the `subject` argument or the
/// node itself; values lose their surrounding quotes. A subject without an
/// output (it did not run) asks for no check.
pub open spec fn check_of(id: Seq<char>, n: NodeModel, outputs: Map<Seq<char>, Seq<char>>) -> Option<CheckModel> {
    if n.slots.dom().contains("verify"@) {
        match n.slots["verify"@] {
            SlotDataModel::Args(p) => if p.len() == 0 {
                None
            } else {
                match pair_value(p, "checker"@) {
                    None => None,
                    Some(c) => {
                        let subject = match pair_value(p, "subject"@) {
                            Some(s) => trim_char_seq(s, '"'),
                            None => id,
                        };
                        if outputs.dom().contains(subject) {
                            Some(
                                CheckModel {
                                    node_id: id,
                                    checker: trim_char_seq(c, '"'),
                                    subject,
                                    output: outputs[subject],
                                },
                            )
                        } else {
                            None
                        }
                    },
                }
            },
            _ => None,
        }
    } else {
        None
    }
}

/// The checks of the first `n` of the node ids `ks`, in order.
pub open spec fn checks_of(g: GraphModel, ks: Seq<Seq<char>>, outputs: Map<Seq<char>, Seq<char>>, n: int) -> Seq<CheckModel>
    decreases n,
{
    if n <= 0 {
        Seq::empty()
    } else {
        let prev = checks_of(g, ks, outputs, n - 1);
        match check_of(ks[n - 1], g.nodes[ks[n - 1]], outputs) {
            Some(c) => prev.push(c),
            None => prev,
        }
    }
}

/// The checks the graph's `verify` slots ask for, nodes in id order.
pub open spec fn graph_checks(g: GraphModel, outputs: Map<Seq<char>, Seq<char>>) -> Seq<CheckModel> {
    let ks = sorted_elements(g.nodes.dom());
    checks_of(g, ks, outputs, ks.len() as int)
}

fn pair_value_exec(p: &Vec<(String, String)>, k: &str) -> (res: Option<String>)
    ensures
        match res {
            Some(v) => pair_value(crate::parser::pair_views(p@), k@) == Some(v@),
            None => pair_value(crate::parser::pair_views(p@), k@) is None,
        },
{
    let ghost pv = crate::parser::pair_views(p@);
    assert(pv.skip(0) =~= pv);
    let mut i: usize = 0;
    while i < p.len()
        invariant
            pv == crate::parser::pair_views(p@),
            i <= p.len(),
            pair_value(pv, k@) == pair_value(pv.skip(i as int), k@),
        decreases p.len() - i,
    {
        assert(pv.skip(i as int)[0] == pv[i as int]);
        assert(pv.skip(i as int).drop_first() =~= pv.skip(i + 1));
        if str_eq(p[i].0.as_str(), k) {
            return Some(p[i].1.clone());
        }
        i += 1;
    }
    None
}

fn node_check(id: &String, n: &Node, outputs: &KeyedMap<String>) -> (res: Option<VerifyCheck>)
    ensures
        match res {
            Some(c) => check_of(id@, n@, outputs.deep()) == Some(c@),
            None => check_of(id@, n@, outputs.deep()) is None,
        },
{
    let pairs = match n.slots.get("verify") {
        Some(SlotData::Args(p)) => p,
        _ => {
            return None;
        },
    };
    if pairs.len() == 0 {
        return None;
    }
    let checker = match pair_value_exec(pairs, "checker") {
        Some(c) => trim_char(c.as_str(), '"'),
        None => {
            return None;
        },
    };
    let subject = match pair_value_exec(pairs, "subject") {
        Some(s) => trim_char(s.as_str(), '"'),
        None => id.clone(),
    };
    match outputs.get(subject.as_str()) {
        Some(o) => Some(VerifyCheck { node_id: id.clone(), checker, subject: subject.clone(), output: o.clone() }),
        None => None,
    }
}

/// The checks the graph's `verify` slots ask for.
pub fn verification_checks(graph: &IntentGraph, outputs: &KeyedMap<String>) -> (res: Vec<VerifyCheck>)
    ensures
        check_views(res@) == graph_checks(graph@, outputs.deep()),
{
    let ghost g = graph@;
    graph.nodes.lemma_sorted();
    let ghost ks = graph.nodes.key_seq();
    proof {
        lemma_sorted_elements(ks, g.nodes.dom());
    }
    let mut out: Vec<VerifyCheck> = Vec::new();
    let n = graph.nodes.len();
    for i in 0..n
        invariant
            g == graph@,
            ks == graph.nodes.key_seq(),
            keys_sorted(ks),
            n == ks.len(),
            check_views(out@) == checks_of(g, ks, outputs.deep(), i as int),
    {
        let id = graph.nodes.key_at(i);
        let node = graph.nodes.value_at(i);
        proof {
            lemma_index_of_unique(ks, ks[i as int], i as int);
            assert(g.nodes.dom().contains(ks[i as int]));
            assert(node@ == g.nodes[ks[i as int]]);
        }
        let ghost before = check_views(out@);
        match node_check(id, node, outputs) {
            Some(c) => out.push(c),
            None => {},
        }
        assert(check_views(out@) =~= checks_of(g, ks, outputs.deep(), i + 1));
    }
    out
}

/// The business predicates (their verdict comes from the caller).
pub open spec fn is_business(name: Seq<char>) -> bool {
    name == "stock_level"@ || name == "order_match"@ || name == "cash_ok"@ || name == "shelf_life_ok"@ || name
        == "temp_log_ok"@ || name == "credit_ok"@
}

pub open spec fn not_implemented_message(name: Seq<char>) -> Seq<char> {
    "predicate '"@ + name + "' not implemented (v1)"@
}

/// What the library decides of a predicate by itself: `not_empty` (and
/// `contains`, which is `not_empty` for now) on the output, an unknown name
/// failing; `None` for a business predicate.
pub open spec fn local_verdict(name: Seq<char>, output: Seq<char>) -> Option<Result<(), Seq<char>>> {
    if name == "not_empty"@ || name == "contains"@ {
        Some(
            if trim_seq(output).len() > 0 {
                Ok(())
            } else {
                Err("not_empty failed: empty output"@)
            },
        )
    } else if is_business(name) {
        None
    } else {
        Some(Err(not_implemented_message(name)))
    }
}

/// The failure message of a check.
pub open spec fn check_failure(c: CheckModel, reason: Seq<char>) -> Seq<char> {
    "verify "@ + c.node_id + " (subject="@ + c.subject + "): "@ + reason
}

fn run_predicate<F: Fn(&str, &str) -> Result<(), String>>(name: &str, output: &str, business: &F) -> (res: Result<(), String>)
    requires
        forall|a: &str, b: &str| business.requires((a, b)),
    ensures
        match local_verdict(name@, output@) {
            Some(v) => match (v, res) {
                (Ok(()), Ok(())) => true,
                (Err(m), Err(e)) => e@ == m,
                _ => false,
            },
            None => business.ensures((name, output), res),
        },
{
    if str_eq(name, "not_empty") || str_eq(name, "contains") {
        return verify_not_empty(output);
    }
    if str_eq(name, "stock_level") || str_eq(name, "order_match") || str_eq(name, "cash_ok") || str_eq(
        name,
        "shelf_life_ok",
    ) || str_eq(name, "temp_log_ok") || str_eq(name, "credit_ok") {
        return business(name, output);
    }
    let mut m = owned("predicate '");
    append(&mut m, name);
    append(&mut m, "' not implemented (v1)");
    Err(m)
}

/// A check passes: by the library's own verdict, or by a verdict the
/// business function may give.
pub open spec fn passes<F: Fn(&str, &str) -> Result<(), String>>(c: CheckModel, business: F) -> bool {
    match local_verdict(c.checker, c.output) {
        Some(v) => v is Ok,
        None => exists|name: &str, output: &str, r: Result<(), String>|
            name@ == c.checker && output@ == c.output && business.ensures((name, output), r) && r is Ok,
    }
}

/// Runs the graph, then enforces its VERIFY slots: rejected nodes reject
/// the run (all listed); otherwise the first check that fails rejects it;
/// otherwise the run is complete. A run that fails is that failure.
pub fn run_verified<B: ModelBackend, F: Fn(&str, &str) -> Result<(), String>>(
    sched: &mut Scheduler<B>,
    graph: &mut IntentGraph,
    branch_id: &str,
    business: &F,
) -> (res: Result<VerifiedOutcome, String>)
    requires
        graph_wf(old(graph)@),
        forall|a: &str, b: &str| business.requires((a, b)),
    ensures
        graph_wf(final(graph)@),
        old(sched).model().reliable() && spawn_free(old(graph)@) && !(exists|s: Set<Seq<char>>| blocked(old(graph)@, s))
            ==> res is Ok,
        match res {
            Ok(VerifiedOutcome::Rejected { reason, partial }) => run_ok(
                *old(sched),
                *final(sched),
                old(graph)@,
                final(graph)@,
                branch_id@,
                partial,
            ) && if partial.rejects@.len() > 0 {
                reason@ == rejects_reason(crate::parser::node_views(partial.rejects@))
            } else {
                let checks = graph_checks(final(graph)@, partial.outputs.deep());
                exists|k: int|
                    #![trigger checks[k]]
                    0 <= k < checks.len() && (forall|j: int| 0 <= j < k ==> passes(checks[j], *business)) && exists|m: Seq<char>|
                        reason@ == check_failure(checks[k], m) && match local_verdict(checks[k].checker, checks[k].output) {
                            Some(v) => v == Err::<(), Seq<char>>(m),
                            None => exists|name: &str, output: &str, r: Result<(), String>|
                                name@ == checks[k].checker && output@ == checks[k].output && business.ensures((name, output), r)
                                    && (r matches Err(e) && e@ == m),
                        }
            },
            Ok(VerifiedOutcome::Completed(r)) => run_ok(*old(sched), *final(sched), old(graph)@, final(graph)@, branch_id@, r)
                && r.rejects@.len() == 0 && forall|j: int|
                0 <= j < graph_checks(final(graph)@, r.outputs.deep()).len() ==> passes(
                    #[trigger] graph_checks(final(graph)@, r.outputs.deep())[j],
                    *business,
                ),
            Err(m) => run_err(*old(sched), final(graph)@, m@),
        },
{
    let result = match sched.run(graph, branch_id) {
        Ok(r) => r,
        Err(m) => {
            return Err(m);
        },
    };
    if result.rejects.len() > 0 {
        let reason = rejects_reason_string(&result.rejects);
        return Ok(VerifiedOutcome::Rejected { reason, partial: result });
    }
    let checks = verification_checks(graph, &result.outputs);
    let ghost cv = check_views(checks@);
    let mut i: usize = 0;
    while i < checks.len()
        invariant
            cv == check_views(checks@),
            cv == graph_checks(graph@, result.outputs.deep()),
            i <= checks.len(),
            result.rejects@.len() == 0,
            graph_wf(graph@),
            forall|a: &str, b: &str| business.requires((a, b)),
            forall|j: int| 0 <= j < i ==> passes(#[trigger] cv[j], *business),
            run_ok(*old(sched), *sched, old(graph)@, graph@, branch_id@, result),
        decreases checks.len() - i,
    {
        let c = &checks[i];
        assert(cv[i as int] == c@);
        let name = c.checker.as_str();
        let out = c.output.as_str();
        let verdict = run_predicate(name, out, business);
        match &verdict {
            Ok(()) => {
                proof {
                    match local_verdict(c.checker@, c.output@) {
                        Some(v) => {},
                        None => {
                            assert(business.ensures((name, out), verdict) && verdict is Ok);
                        },
                    }
                }
            },
            Err(e) => {
                let mut reason = owned("verify ");
                append(&mut reason, c.node_id.as_str());
                append(&mut reason, " (subject=");
                append(&mut reason, c.subject.as_str());
                append(&mut reason, "): ");
                append(&mut reason, e.as_str());
                let ghost ev = e@;
                proof {
                    let k = i as int;
                    assert(reason@ == check_failure(cv[k], ev));
                    assert(forall|j: int| 0 <= j < k ==> passes(cv[j], *business));
                    let checks = graph_checks(graph@, result.outputs.deep());
                    assert(checks[k] == cv[k]);
                    match local_verdict(c.checker@, c.output@) {
                        Some(v) => {
                            assert(v == Err::<(), Seq<char>>(ev));
                        },
                        None => {
                            assert(business.ensures((name, out), verdict) && (verdict matches Err(x) && x@ == ev));
                            assert(name@ == checks[k].checker && out@ == checks[k].output);
                        },
                    }
                    assert(0 <= k < checks.len() && (forall|j: int| 0 <= j < k ==> passes(checks[j], *business)));
                }
                return Ok(VerifiedOutcome::Rejected { reason, partial: result });
            },
        }
        i += 1;
    }
    Ok(VerifiedOutcome::Completed(result))
}

// ---------------------------------------------------------------------
// Reporting a run
// ---------------------------------------------------------------------

/// `✓ id: output` for a node, the output empty when the node has none.
pub open spec fn order_line(id: Seq<char>, outputs: Map<Seq<char>, Seq<char>>) -> Seq<char> {
    "✓ "@ + id + ": "@ + if outputs.dom().contains(id) {
        outputs[id]
    } else {
        Seq::empty()
    }
}

/// The line of each node that ran, in order.
pub open spec fn order_lines_of(order: Seq<Seq<char>>, outputs: Map<Seq<char>, Seq<char>>) -> Seq<Seq<char>> {
    Seq::new(order.len(), |i: int| order_line(order[i], outputs))
}

/// The lines of the nodes that ran, in order.
pub fn order_lines(order: &Vec<String>, outputs: &KeyedMap<String>) -> (res: Vec<String>)
    ensures
        string_views(res@) == order_lines_of(string_views(order@), outputs.deep()),
{
    let mut lines: Vec<String> = Vec::new();
    for i in 0..order.len()
        invariant
            string_views(lines@) == order_lines_of(string_views(order@), outputs.deep()).take(i as int),
    {
        let id = &order[i];
        let mut line = owned("✓ ");
        append(&mut line, id.as_str());
        append(&mut line, ": ");
        match outputs.get(id.as_str()) {
            Some(v) => append(&mut line, v.as_str()),
            None => {},
        }
        proof {
            assert(string_views(order@)[i as int] == id@);
            assert(outputs.deep().dom().contains(id@) == outputs.has(id@));
        }
        let ghost before = string_views(lines@);
        lines.push(line);
        proof {
            assert(string_views(lines@) =~= before.push(order_lines_of(string_views(order@), outputs.deep())[i as int]));
            assert(order_lines_of(string_views(order@), outputs.deep()).take(i + 1) =~= order_lines_of(
                string_views(order@),
                outputs.deep(),
            ).take(i as int).push(order_lines_of(string_views(order@), outputs.deep())[i as int]));
        }
    }
    proof {
        assert(order_lines_of(string_views(order@), outputs.deep()).take(order.len() as int) =~= order_lines_of(
            string_views(order@),
            outputs.deep(),
        ));
    }
    lines
}

/// What a finished run reports: a status, the lines to show, and a result.
pub struct RunReport {
    pub status: String,
    pub lines: Vec<String>,
    pub result: String,
}

/// The report of a run: completed with the lines of the nodes that ran and
/// `ok`; rejected with those lines, the reason as a last line, and the
/// reason; or rejected by a fatal failure, with that failure alone.
pub fn run_report(outcome: &Result<VerifiedOutcome, String>) -> (res: RunReport)
    ensures
        match outcome {
            Ok(VerifiedOutcome::Completed(r)) => res.status@ == "completed"@ && string_views(res.lines@) == order_lines_of(
                string_views(r.order@),
                r.outputs.deep(),
            ) && res.result@ == "ok"@,
            Ok(VerifiedOutcome::Rejected { reason, partial }) => res.status@ == "rejected"@ && string_views(res.lines@)
                == order_lines_of(string_views(partial.order@), partial.outputs.deep()).push("ОТКАЗ: "@ + reason@)
                && res.result@ == reason@,
            Err(fatal) => res.status@ == "rejected"@ && string_views(res.lines@) == seq!["ФАТАЛЬНЫЙ СБОЙ: "@ + fatal@]
                && res.result@ == fatal@,
        },
{
    match outcome {
        Ok(VerifiedOutcome::Completed(r)) => {
            RunReport { status: owned("completed"), lines: order_lines(&r.order, &r.outputs), result: owned("ok") }
        },
        Ok(VerifiedOutcome::Rejected { reason, partial }) => {
            let mut lines = order_lines(&partial.order, &partial.outputs);
            let mut last = owned("ОТКАЗ: ");
            append(&mut last, reason.as_str());
            let ghost before = string_views(lines@);
            lines.push(last);
            proof {
                assert(string_views(lines@) =~= before.push("ОТКАЗ: "@ + reason@));
            }
            RunReport { status: owned("rejected"), lines, result: reason.clone() }
        },
        Err(fatal) => {
            let mut line = owned("ФАТАЛЬНЫЙ СБОЙ: ");
            append(&mut line, fatal.as_str());
            let lines = vec![line];
            proof {
                assert(string_views(lines@) =~= seq!["ФАТАЛЬНЫЙ СБОЙ: "@ + fatal@]);
            }
            RunReport { status: owned("rejected"), lines, result: fatal.clone() }
        },
    }
}

/// An output as a listing shows it: at most 120 characters, with `…` after
/// a cut.
pub open spec fn preview_of(v: Seq<char>) -> Seq<char> {
    if v.len() > 120 {
        v.take(120) + "…"@
    } else {
        v
    }
}

/// An output shortened for a listing.
pub fn output_preview(v: &str) -> (res: String)
    ensures
        res@ == preview_of(v@),
{
    let cs = to_chars(v);
    if cs.len() > 120 {
        let mut s = chars_to_string(&cs, 0, 120);
        append(&mut s, "…");
        proof {
            assert(cs@.subrange(0, 120) =~= v@.take(120));
        }
        s
    } else {
        owned(v)
    }
}

} // verus!
