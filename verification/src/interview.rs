//! The interview: surveying an enterprise by conversation and building its
//! IDEF0 model.
//!
//! What to ask is decided here, deterministically: the next question is a
//! function of the model alone, driven by the validator's violations, so
//! the order of questions is reproducible and needs no network. How to
//! understand an answer is the language model's only role (free text to
//! structure); the application asks it and hands the structure back here,
//! where it is accepted or refused.

use vstd::prelude::*;
use crate::icom::{
    model_violations, validate_model, violation_views, Rule, Severity, Violation, ViolationModel,
};
use crate::idef0::{block_views, Block, BlockModel, Idef0Model};
use crate::parser::debug_list;
use crate::text::{
    append, chars_to_string, decimal, is_blank, is_prefix, is_suffix, owned, string_views, to_chars, trim,
    trim_seq, usize_to_string, ws_prefix_len,
};

verus! {

/// The next step of the survey. Each question names a concrete gap of the
/// model.
#[derive(Debug, Clone, PartialEq, Eq)]
pub enum Question {
    /// No model yet: the frame (what the enterprise does, what comes in and out).
    Context,
    /// A frame without a decomposition: the steps of the process.
    Steps,
    /// An input of a step that nothing produces and that does not come from outside.
    MissingProducer { block: String, flow: String },
    /// A promised result that no step produces.
    MissingProducerForResult { flow: String },
    /// A step without a function.
    EmptyFunction { block: String },
    /// A branch that leads nowhere.
    BranchTarget { block: String, target: String },
    /// A cycle in the data flow.
    Cycle { blocks: String },
    /// A step outside the flow.
    Orphan { block: String },
    /// Any other violation.
    Other { block: String, message: String },
    /// No violation left: the model goes to the client for confirmation.
    Confirm,
}

pub enum QuestionModel {
    Context,
    Steps,
    MissingProducer { block: Seq<char>, flow: Seq<char> },
    MissingProducerForResult { flow: Seq<char> },
    EmptyFunction { block: Seq<char> },
    BranchTarget { block: Seq<char>, target: Seq<char> },
    Cycle { blocks: Seq<char> },
    Orphan { block: Seq<char> },
    Other { block: Seq<char>, message: Seq<char> },
    Confirm,
}

impl View for Question {
    type V = QuestionModel;

    open spec fn view(&self) -> QuestionModel {
        match self {
            Question::Context => QuestionModel::Context,
            Question::Steps => QuestionModel::Steps,
            Question::MissingProducer { block, flow } => QuestionModel::MissingProducer { block: block@, flow: flow@ },
            Question::MissingProducerForResult { flow } => QuestionModel::MissingProducerForResult { flow: flow@ },
            Question::EmptyFunction { block } => QuestionModel::EmptyFunction { block: block@ },
            Question::BranchTarget { block, target } => QuestionModel::BranchTarget { block: block@, target: target@ },
            Question::Cycle { blocks } => QuestionModel::Cycle { blocks: blocks@ },
            Question::Orphan { block } => QuestionModel::Orphan { block: block@ },
            Question::Other { block, message } => QuestionModel::Other { block: block@, message: message@ },
            Question::Confirm => QuestionModel::Confirm,
        }
    }
}

/// The question put to the client, in business words (the client need not
/// know what ICOM or a decomposition is).
pub open spec fn question_text(q: QuestionModel) -> Seq<char> {
    match q {
        QuestionModel::Context => "Чем занимается предприятие? Опишите одним предложением главный процесс, что поступает на вход и что получается на выходе."@,
        QuestionModel::Steps => "Из каких последовательных шагов состоит этот процесс? Перечислите их по порядку, для каждого — что он получает и что выдаёт."@,
        QuestionModel::MissingProducer { block, flow } => "Шагу «"@ + block + "» нужно «"@ + flow
            + "», но ни один из названных шагов этого не производит. Откуда это берётся — какой шаг это готовит или это приходит извне предприятия?"@,
        QuestionModel::MissingProducerForResult { flow } => "Итог процесса — «"@ + flow
            + "», но ни один шаг его не производит. Какой шаг формирует этот результат?"@,
        QuestionModel::EmptyFunction { block } => "Шаг «"@ + block + "» назван, но не описан. Что на нём делают?"@,
        QuestionModel::BranchTarget { block, target } => "На шаге «"@ + block + "» есть развилка, ведущая к «"@ + target
            + "», но такого шага в процессе нет. Куда идёт работа после этой развилки?"@,
        QuestionModel::Cycle { blocks } => "Шаги "@ + blocks
            + " ждут результатов друг друга по кругу, поэтому начать процесс не с чего. С какого из них работа начинается на самом деле?"@,
        QuestionModel::Orphan { block } => "Шаг «"@ + block
            + "» ни с чем не связан: он ничего не получает от других шагов и его результат никому не нужен. Куда он встраивается — или его убрать?"@,
        QuestionModel::Other { block, message } => "По шагу «"@ + block + "» есть неясность: "@ + message
            + " Уточните, пожалуйста."@,
        QuestionModel::Confirm => "Модель процесса собрана и непротиворечива. Подтвердите её — или скажите, что поправить."@,
    }
}

impl Question {
    /// The text put to the client.
    pub fn text(&self) -> (res: String)
        ensures
            res@ == question_text(self@),
    {
        match self {
            Question::Context => owned(
                "Чем занимается предприятие? Опишите одним предложением главный процесс, что поступает на вход и что получается на выходе.",
            ),
            Question::Steps => owned(
                "Из каких последовательных шагов состоит этот процесс? Перечислите их по порядку, для каждого — что он получает и что выдаёт.",
            ),
            Question::MissingProducer { block, flow } => {
                let mut m = owned("Шагу «");
                append(&mut m, block.as_str());
                append(&mut m, "» нужно «");
                append(&mut m, flow.as_str());
                append(
                    &mut m,
                    "», но ни один из названных шагов этого не производит. Откуда это берётся — какой шаг это готовит или это приходит извне предприятия?",
                );
                m
            },
            Question::MissingProducerForResult { flow } => {
                let mut m = owned("Итог процесса — «");
                append(&mut m, flow.as_str());
                append(&mut m, "», но ни один шаг его не производит. Какой шаг формирует этот результат?");
                m
            },
            Question::EmptyFunction { block } => {
                let mut m = owned("Шаг «");
                append(&mut m, block.as_str());
                append(&mut m, "» назван, но не описан. Что на нём делают?");
                m
            },
            Question::BranchTarget { block, target } => {
                let mut m = owned("На шаге «");
                append(&mut m, block.as_str());
                append(&mut m, "» есть развилка, ведущая к «");
                append(&mut m, target.as_str());
                append(&mut m, "», но такого шага в процессе нет. Куда идёт работа после этой развилки?");
                m
            },
            Question::Cycle { blocks } => {
                let mut m = owned("Шаги ");
                append(&mut m, blocks.as_str());
                append(
                    &mut m,
                    " ждут результатов друг друга по кругу, поэтому начать процесс не с чего. С какого из них работа начинается на самом деле?",
                );
                m
            },
            Question::Orphan { block } => {
                let mut m = owned("Шаг «");
                append(&mut m, block.as_str());
                append(
                    &mut m,
                    "» ни с чем не связан: он ничего не получает от других шагов и его результат никому не нужен. Куда он встраивается — или его убрать?",
                );
                m
            },
            Question::Other { block, message } => {
                let mut m = owned("По шагу «");
                append(&mut m, block.as_str());
                append(&mut m, "» есть неясность: ");
                append(&mut m, message.as_str());
                append(&mut m, " Уточните, пожалуйста.");
                m
            },
            Question::Confirm => owned(
                "Модель процесса собрана и непротиворечива. Подтвердите её — или скажите, что поправить.",
            ),
        }
    }

    /// The survey is over (only the client's confirmation is left).
    pub fn is_final(&self) -> (res: bool)
        ensures
            res == (self@ is Confirm),
    {
        match self {
            Question::Confirm => true,
            _ => false,
        }
    }

    /// A copy of the question.
    pub fn duplicate(&self) -> (res: Question)
        ensures
            res@ == self@,
    {
        match self {
            Question::Context => Question::Context,
            Question::Steps => Question::Steps,
            Question::MissingProducer { block, flow } => Question::MissingProducer {
                block: block.clone(),
                flow: flow.clone(),
            },
            Question::MissingProducerForResult { flow } => Question::MissingProducerForResult { flow: flow.clone() },
            Question::EmptyFunction { block } => Question::EmptyFunction { block: block.clone() },
            Question::BranchTarget { block, target } => Question::BranchTarget {
                block: block.clone(),
                target: target.clone(),
            },
            Question::Cycle { blocks } => Question::Cycle { blocks: blocks.clone() },
            Question::Orphan { block } => Question::Orphan { block: block.clone() },
            Question::Other { block, message } => Question::Other { block: block.clone(), message: message.clone() },
            Question::Confirm => Question::Confirm,
        }
    }
}

/// The position of the first error, if any.
pub open spec fn first_error(vs: Seq<ViolationModel>, n: int) -> Option<int>
    decreases n,
{
    if n <= 0 {
        None
    } else {
        match first_error(vs, n - 1) {
            Some(i) => Some(i),
            None => if vs[n - 1].severity == Severity::Error {
                Some(n - 1)
            } else {
                None
            },
        }
    }
}

/// The gap to close first: the first error, or else the first violation.
pub open spec fn gap_index(vs: Seq<ViolationModel>) -> Option<int> {
    match first_error(vs, vs.len() as int) {
        Some(i) => Some(i),
        None => if vs.len() > 0 {
            Some(0)
        } else {
            None
        },
    }
}

proof fn lemma_first_error(vs: Seq<ViolationModel>, n: int)
    requires
        0 <= n <= vs.len(),
    ensures
        match first_error(vs, n) {
            Some(i) => 0 <= i < n && vs[i].severity == Severity::Error && forall|j: int| 0 <= j < i ==> vs[j].severity
                != Severity::Error,
            None => forall|j: int| 0 <= j < n ==> vs[j].severity != Severity::Error,
        },
    decreases n,
{
    if n > 0 {
        lemma_first_error(vs, n - 1);
    }
}

/// The first gap worth closing: errors before warnings, each in order.
/// Deterministic, so one answer always leads to one question.
pub fn first_gap(violations: &[Violation]) -> (res: Option<&Violation>)
    ensures
        match gap_index(violation_views(violations@)) {
            Some(i) => res matches Some(v) && 0 <= i < violations@.len() && *v == violations@[i],
            None => res is None,
        },
{
    let ghost vs = violation_views(violations@);
    let mut i: usize = 0;
    while i < violations.len()
        invariant
            vs == violation_views(violations@),
            i <= violations@.len(),
            first_error(vs, i as int) is None,
        decreases violations.len() - i,
    {
        assert(vs[i as int] == violations@[i as int]@);
        if violations[i].severity == Severity::Error {
            assert(first_error(vs, i + 1) == Some(i as int));
            proof {
                lemma_first_error_stays(vs, i + 1, vs.len() as int);
            }
            return Some(&violations[i]);
        }
        i += 1;
    }
    if violations.len() > 0 {
        Some(&violations[0])
    } else {
        None
    }
}

proof fn lemma_first_error_stays(vs: Seq<ViolationModel>, i: int, n: int)
    requires
        i <= n,
        first_error(vs, i) is Some,
    ensures
        first_error(vs, n) == first_error(vs, i),
    decreases n - i,
{
    if i < n {
        lemma_first_error_stays(vs, i, n - 1);
    }
}

/// The question a violation asks.
pub open spec fn question_of(v: ViolationModel) -> QuestionModel {
    let arrow = match v.arrow {
        Some(a) => a,
        None => Seq::empty(),
    };
    match v.rule {
        Rule::DanglingInput => QuestionModel::MissingProducer { block: v.block, flow: arrow },
        Rule::MissingOutput => QuestionModel::MissingProducerForResult { flow: arrow },
        Rule::EmptyBlock => QuestionModel::EmptyFunction { block: v.block },
        Rule::BranchTargetMissing | Rule::BranchKindMismatch => QuestionModel::BranchTarget { block: v.block, target: arrow },
        Rule::Cycle | Rule::SelfLoop => QuestionModel::Cycle {
            blocks: if arrow.len() == 0 {
                v.block
            } else {
                v.block + " ("@ + arrow + ")"@
            },
        },
        Rule::OrphanBlock => QuestionModel::Orphan { block: v.block },
        _ => QuestionModel::Other { block: v.block, message: v.message },
    }
}

pub fn violation_to_question(v: &Violation) -> (res: Question)
    ensures
        res@ == question_of(v@),
{
    let arrow = match &v.arrow {
        Some(a) => a.clone(),
        None => String::new(),
    };
    match v.rule {
        Rule::DanglingInput => Question::MissingProducer { block: v.block.clone(), flow: arrow },
        Rule::MissingOutput => Question::MissingProducerForResult { flow: arrow },
        Rule::EmptyBlock => Question::EmptyFunction { block: v.block.clone() },
        Rule::BranchTargetMissing | Rule::BranchKindMismatch => Question::BranchTarget {
            block: v.block.clone(),
            target: arrow,
        },
        Rule::Cycle | Rule::SelfLoop => {
            let blocks = if arrow.unicode_len() == 0 {
                v.block.clone()
            } else {
                let mut b = v.block.clone();
                append(&mut b, " (");
                append(&mut b, arrow.as_str());
                append(&mut b, ")");
                b
            };
            Question::Cycle { blocks }
        },
        Rule::OrphanBlock => Question::Orphan { block: v.block.clone() },
        _ => Question::Other { block: v.block.clone(), message: v.message.clone() },
    }
}

/// What to ask next, from the state of the model alone: the frame first,
/// then the steps, then the first gap the validator reports, then the
/// confirmation.
pub open spec fn next_question_of(context: Option<BlockModel>) -> QuestionModel {
    match context {
        None => QuestionModel::Context,
        Some(c) => if c.children.len() == 0 {
            QuestionModel::Steps
        } else {
            match gap_index(model_violations(c)) {
                Some(i) => question_of(model_violations(c)[i]),
                None => QuestionModel::Confirm,
            }
        },
    }
}

/// The gap to close: none exactly when there is no violation; otherwise
/// the first error, or the first violation when none is an error.
proof fn lemma_gap_index(vs: Seq<ViolationModel>)
    ensures
        (gap_index(vs) is None) <==> vs.len() == 0,
        gap_index(vs) matches Some(k) ==> 0 <= k < vs.len(),
        forall|i: int|
            0 <= i < vs.len() && vs[i].severity == Severity::Error && (forall|j: int| 0 <= j < i ==> vs[j].severity != Severity::Error)
                ==> gap_index(vs) == Some(i),
        vs.len() > 0 && (forall|j: int| 0 <= j < vs.len() ==> vs[j].severity != Severity::Error) ==> gap_index(vs) == Some(0int),
{
    lemma_first_error(vs, vs.len() as int);
    match first_error(vs, vs.len() as int) {
        Some(k) => {
            assert forall|i: int|
                0 <= i < vs.len() && vs[i].severity == Severity::Error && (forall|j: int| 0 <= j < i ==> vs[j].severity != Severity::Error)
                    implies gap_index(vs) == Some(i) by {
                if i < k {
                    assert(vs[i].severity != Severity::Error);
                } else if k < i {
                    assert(vs[k].severity != Severity::Error);
                }
            }
        },
        None => {},
    }
}

/// The survey asks for the frame while there is no model, and for the
/// steps while the frame has none.
pub proof fn lemma_survey_frame_then_steps(c: BlockModel)
    ensures
        next_question_of(None) == QuestionModel::Context,
        c.children.len() == 0 ==> next_question_of(Some(c)) == QuestionModel::Steps,
{
}

/// Once a model has steps, the survey offers it for confirmation exactly
/// when the validator reports no violation at all. While violations remain
/// it asks the question of the first error; when there are violations but
/// no error (warnings only), it asks the question of the first violation.
#[verifier::spinoff_prover]
#[verifier::rlimit(80)]
pub proof fn lemma_confirm_only_without_violations(c: BlockModel)
    requires
        c.children.len() > 0,
    ensures
        (next_question_of(Some(c)) is Confirm) <==> model_violations(c).len() == 0,
        forall|i: int|
            0 <= i < model_violations(c).len() && model_violations(c)[i].severity == Severity::Error && (forall|j: int|
                0 <= j < i ==> model_violations(c)[j].severity != Severity::Error) ==> next_question_of(Some(c))
                == question_of(#[trigger] model_violations(c)[i]),
        model_violations(c).len() > 0 && (forall|j: int|
            0 <= j < model_violations(c).len() ==> model_violations(c)[j].severity != Severity::Error) ==> next_question_of(Some(c))
            == question_of(model_violations(c)[0]),
{
    let vs = model_violations(c);
    lemma_gap_index(vs);
    assert(next_question_of(Some(c)) == match gap_index(vs) {
        Some(i) => question_of(vs[i]),
        None => QuestionModel::Confirm,
    });
}

pub open spec fn model_context(model: Option<Idef0Model>) -> Option<BlockModel> {
    match model {
        Some(m) => Some(m.context@),
        None => None,
    }
}

#[verifier::spinoff_prover]
#[verifier::rlimit(50)]
pub fn next_question(model: &Option<Idef0Model>) -> (res: Question)
    ensures
        res@ == next_question_of(model_context(*model)),
{
    let model = match model {
        Some(m) => m,
        None => {
            return Question::Context;
        },
    };
    if model.context.children.len() == 0 {
        return Question::Steps;
    }
    let violations = validate_model(model);
    match first_gap(violations.as_slice()) {
        Some(v) => violation_to_question(v),
        None => Question::Confirm,
    }
}

// ---------------------------------------------------------------------
// Answers as structure (what the language model extracted)
// ---------------------------------------------------------------------

/// Repeated removal of the suffix `p`.
pub open spec fn trim_end_all(s: Seq<char>, p: Seq<char>) -> Seq<char>
    decreases s.len(),
{
    if p.len() > 0 && is_suffix(p, s) {
        trim_end_all(s.take(s.len() - p.len()), p)
    } else {
        s
    }
}

/// The answer without a ```` ```json ... ``` ```` fence around it (models
/// add one against the instructions) and without surrounding whitespace.
pub open spec fn strip_fence_of(s: Seq<char>) -> Seq<char> {
    let t = trim_seq(s);
    if !is_prefix("```"@, t) {
        t
    } else {
        let r0 = t.skip("```"@.len() as int);
        let rest = if is_prefix("json"@, r0) {
            r0.skip("json"@.len() as int)
        } else {
            r0
        };
        let r1 = rest.skip(ws_prefix_len(rest) as int);
        let r2 = if is_suffix("```"@, r1) {
            r1.take(r1.len() - "```"@.len())
        } else {
            rest
        };
        trim_seq(trim_end_all(trim_seq(r2), "```"@))
    }
}

fn strip_prefix_chars(s: &Vec<char>, p: &str) -> (res: Option<Vec<char>>)
    ensures
        match res {
            Some(r) => is_prefix(p@, s@) && r@ == s@.skip(p@.len() as int),
            None => !is_prefix(p@, s@),
        },
{
    assert(s@.skip(0) =~= s@);
    if crate::text::starts_with_at(s, 0, p) {
        let n = p.unicode_len();
        Some(sub_chars(s, n, s.len()))
    } else {
        None
    }
}

fn ends_with_chars(s: &Vec<char>, p: &str) -> (res: bool)
    ensures
        res == is_suffix(p@, s@),
{
    let q = to_chars(p);
    if q.len() > s.len() {
        return false;
    }
    let start = s.len() - q.len();
    let mut i: usize = 0;
    while i < q.len()
        invariant
            q@ == p@,
            start + q.len() == s.len(),
            i <= q.len(),
            forall|j: int| 0 <= j < i ==> s@[start + j] == q@[j],
        decreases q.len() - i,
    {
        if s[start + i] != q[i] {
            assert(s@.skip(start as int)[i as int] == s@[start + i]);
            return false;
        }
        i += 1;
    }
    assert(s@.skip(start as int) =~= q@);
    true
}

fn sub_chars(v: &Vec<char>, lo: usize, hi: usize) -> (res: Vec<char>)
    requires
        lo <= hi <= v@.len(),
    ensures
        res@ == v@.subrange(lo as int, hi as int),
{
    let mut res: Vec<char> = Vec::new();
    let mut i = lo;
    while i < hi
        invariant
            lo <= i <= hi <= v@.len(),
            res@ == v@.subrange(lo as int, i as int),
        decreases hi - i,
    {
        res.push(v[i]);
        i += 1;
        assert(res@ =~= v@.subrange(lo as int, i as int));
    }
    res
}

fn skip_leading_ws(v: &Vec<char>) -> (res: Vec<char>)
    ensures
        res@ == v@.skip(ws_prefix_len(v@) as int),
{
    let mut lo: usize = 0;
    while lo < v.len() && crate::text::is_whitespace(v[lo])
        invariant
            lo <= v.len(),
            forall|j: int| 0 <= j < lo ==> crate::text::ws_char(#[trigger] v@[j]),
        decreases v.len() - lo,
    {
        lo += 1;
    }
    proof {
        crate::text::lemma_ws_prefix_len(v@, lo as int);
    }
    let r = sub_chars(v, lo, v.len());
    assert(r@ =~= v@.skip(lo as int));
    r
}

fn trim_end_fences(v: &Vec<char>) -> (res: Vec<char>)
    ensures
        res@ == trim_end_all(v@, "```"@),
{
    proof {
        reveal_strlit("```");
    }
    let mut cur = sub_chars(v, 0, v.len());
    assert(cur@ =~= v@);
    while ends_with_chars(&cur, "```")
        invariant
            trim_end_all(cur@, "```"@) == trim_end_all(v@, "```"@),
            "```"@.len() == 3,
        decreases cur@.len(),
    {
        let n = cur.len() - 3;
        cur = sub_chars(&cur, 0, n);
        assert(cur@ =~= cur@.take(n as int));
    }
    cur
}

/// The answer without its fence.
pub fn strip_fence(s: &str) -> (res: String)
    ensures
        res@ == strip_fence_of(s@),
{
    let t = trim(s);
    let tv = to_chars(t.as_str());
    let r0 = match strip_prefix_chars(&tv, "```") {
        Some(r) => r,
        None => {
            return t;
        },
    };
    let rest = match strip_prefix_chars(&r0, "json") {
        Some(r) => r,
        None => r0,
    };
    let r1 = skip_leading_ws(&rest);
    let r2 = if ends_with_chars(&r1, "```") {
        proof {
            reveal_strlit("```");
        }
        sub_chars(&r1, 0, r1.len() - 3)
    } else {
        sub_chars(&rest, 0, rest.len())
    };
    proof {
        reveal_strlit("```");
        assert(r2@ =~= (if is_suffix("```"@, r1@) {
            r1@.take(r1@.len() - "```"@.len())
        } else {
            rest@
        }));
    }
    let s2 = chars_to_string(&r2, 0, r2.len());
    assert(r2@.subrange(0, r2@.len() as int) =~= r2@);
    let t2 = trim(s2.as_str());
    let t2v = to_chars(t2.as_str());
    let t3 = trim_end_fences(&t2v);
    let s3 = chars_to_string(&t3, 0, t3.len());
    assert(t3@.subrange(0, t3@.len() as int) =~= t3@);
    trim(s3.as_str())
}


// ---------------------------------------------------------------------
// Prompts
// ---------------------------------------------------------------------

/// The rules every extraction prompt starts with.
pub open spec fn prompt_rules() -> Seq<char> {
    "Отвечай ТОЛЬКО JSON, без пояснений и без markdown-обрамления. Имена потоков — короткие идентификаторы латиницей или кириллицей без пробелов; одинаковые сущности в разных шагах называй ОДИНАКОВО (выход одного шага должен дословно совпадать с входом следующего)."@
}

fn rules() -> (res: String)
    ensures
        res@ == prompt_rules(),
{
    owned(
        "Отвечай ТОЛЬКО JSON, без пояснений и без markdown-обрамления. Имена потоков — короткие идентификаторы латиницей или кириллицей без пробелов; одинаковые сущности в разных шагах называй ОДИНАКОВО (выход одного шага должен дословно совпадать с входом следующего).",
    )
}

pub open spec fn context_prompt_of(answer: Seq<char>) -> Seq<char> {
    prompt_rules()
        + "\nПо описанию предприятия заполни рамку процесса.\nСхема: {\"function\":str,\"inputs\":[str],\"controls\":[str],\"outputs\":[str]}\nfunction — главный процесс; inputs — что поступает извне; controls — нормы, правила, ограничения; outputs — конечный результат.\n\nОписание: "@
        + answer
}

/// The prompt that turns a description of the enterprise into the frame.
pub fn context_prompt(answer: &str) -> (res: String)
    ensures
        res@ == context_prompt_of(answer@),
{
    let mut m = rules();
    append(
        &mut m,
        "\nПо описанию предприятия заполни рамку процесса.\nСхема: {\"function\":str,\"inputs\":[str],\"controls\":[str],\"outputs\":[str]}\nfunction — главный процесс; inputs — что поступает извне; controls — нормы, правила, ограничения; outputs — конечный результат.\n\nОписание: ",
    );
    append(&mut m, answer);
    m
}

pub open spec fn steps_prompt_of(c: BlockModel, answer: Seq<char>) -> Seq<char> {
    prompt_rules()
        + "\nРазложи процесс на последовательные шаги.\nСхема: {\"steps\":[{\"id\":str,\"function\":str,\"inputs\":[str],\"controls\":[str],\"outputs\":[str],\"mechanisms\":[str]}]}\nid — вида A1, A2, ...; вход первого шага бери из inputs рамки, выход последнего обязан совпасть с outputs рамки; вход каждого следующего шага — выход предыдущего.\n\nРамка: процесс «"@
        + c.function + "», вход "@ + debug_list(c.inputs) + ", управление "@ + debug_list(c.controls) + ", выход "@
        + debug_list(c.outputs) + "\n\nОтвет клиента: "@ + answer
}

/// The prompt that turns the client's answer into the steps of the frame.
pub fn steps_prompt(model: &Idef0Model, answer: &str) -> (res: String)
    ensures
        res@ == steps_prompt_of(model.context@, answer@),
{
    let ctx = &model.context;
    let mut m = rules();
    append(
        &mut m,
        "\nРазложи процесс на последовательные шаги.\nСхема: {\"steps\":[{\"id\":str,\"function\":str,\"inputs\":[str],\"controls\":[str],\"outputs\":[str],\"mechanisms\":[str]}]}\nid — вида A1, A2, ...; вход первого шага бери из inputs рамки, выход последнего обязан совпасть с outputs рамки; вход каждого следующего шага — выход предыдущего.\n\nРамка: процесс «",
    );
    append(&mut m, ctx.function.as_str());
    append(&mut m, "», вход ");
    let a = crate::decoding::debug_strings(&ctx.inputs);
    append(&mut m, a.as_str());
    append(&mut m, ", управление ");
    let b = crate::decoding::debug_strings(&ctx.controls);
    append(&mut m, b.as_str());
    append(&mut m, ", выход ");
    let c = crate::decoding::debug_strings(&ctx.outputs);
    append(&mut m, c.as_str());
    append(&mut m, "\n\nОтвет клиента: ");
    append(&mut m, answer);
    m
}

pub open spec fn fix_prompt_of(current: Seq<char>, q: QuestionModel, answer: Seq<char>) -> Seq<char> {
    prompt_rules()
        + "\nИсправь список шагов процесса по ответу клиента.\nСхема: {\"steps\":[{\"id\":str,\"function\":str,\"inputs\":[str],\"controls\":[str],\"outputs\":[str],\"mechanisms\":[str]}]}\nВерни ПОЛНЫЙ список шагов после правки, а не только изменённые.\n\nТекущие шаги: "@
        + current + "\n\nБыл задан вопрос: "@ + question_text(q) + "\n\nОтвет клиента: "@ + answer
}

/// The prompt that turns the answer to a question about a gap into a
/// corrected list of steps; `current` is the current list as JSON.
pub fn fix_prompt(current: &str, question: &Question, answer: &str) -> (res: String)
    ensures
        res@ == fix_prompt_of(current@, question@, answer@),
{
    let mut m = rules();
    append(
        &mut m,
        "\nИсправь список шагов процесса по ответу клиента.\nСхема: {\"steps\":[{\"id\":str,\"function\":str,\"inputs\":[str],\"controls\":[str],\"outputs\":[str],\"mechanisms\":[str]}]}\nВерни ПОЛНЫЙ список шагов после правки, а не только изменённые.\n\nТекущие шаги: ",
    );
    append(&mut m, current);
    append(&mut m, "\n\nБыл задан вопрос: ");
    let t = question.text();
    append(&mut m, t.as_str());
    append(&mut m, "\n\nОтвет клиента: ");
    append(&mut m, answer);
    m
}

// ---------------------------------------------------------------------
// Accepting what was extracted
// ---------------------------------------------------------------------

/// The frame as the language model extracted it.
#[derive(Debug)]
pub struct ContextAnswer {
    pub function: String,
    pub inputs: Vec<String>,
    pub controls: Vec<String>,
    pub outputs: Vec<String>,
}

/// The frame `A0` of an extracted context.
pub open spec fn frame_of(a: ContextAnswer) -> BlockModel {
    BlockModel {
        id: "A0"@,
        function: a.function@,
        kind: None,
        inputs: string_views(a.inputs@),
        controls: string_views(a.controls@),
        outputs: string_views(a.outputs@),
        mechanisms: Seq::empty(),
        children: Seq::empty(),
        branches: Seq::empty(),
    }
}

/// The frame of the model: refused when no main process was named.
pub fn extract_context(a: ContextAnswer) -> (res: Result<Idef0Model, String>)
    ensures
        match res {
            Ok(m) => trim_seq(a.function@).len() > 0 && m.context@ == frame_of(a),
            Err(e) => trim_seq(a.function@).len() == 0 && e@ == "модель не назвала главный процесс"@,
        },
{
    if is_blank(a.function.as_str()) {
        return Err(owned("модель не назвала главный процесс"));
    }
    let ghost av = a;
    let context = Block {
        id: owned("A0"),
        function: a.function,
        kind: None,
        inputs: a.inputs,
        controls: a.controls,
        outputs: a.outputs,
        mechanisms: Vec::new(),
        children: Vec::new(),
        branches: Vec::new(),
    };
    proof {
        assert(context@.mechanisms =~= Seq::<Seq<char>>::empty());
        assert(context@.children =~= Seq::<BlockModel>::empty());
        assert(context@.branches =~= Seq::<(Seq<char>, Seq<char>)>::empty());
        assert(context@ =~= frame_of(av));
    }
    Ok(Idef0Model { context })
}

/// The steps of the process: refused when there is none.
pub fn extract_steps(steps: Vec<Block>) -> (res: Result<Vec<Block>, String>)
    ensures
        match res {
            Ok(s) => s@ == steps@ && steps@.len() > 0,
            Err(e) => steps@.len() == 0 && e@ == "модель не выделила ни одного шага"@,
        },
{
    if steps.len() == 0 {
        return Err(owned("модель не выделила ни одного шага"));
    }
    Ok(steps)
}

/// The corrected steps: refused when none is left.
pub fn extract_fix(steps: Vec<Block>) -> (res: Result<Vec<Block>, String>)
    ensures
        match res {
            Ok(s) => s@ == steps@ && steps@.len() > 0,
            Err(e) => steps@.len() == 0 && e@ == "после правки не осталось ни одного шага"@,
        },
{
    if steps.len() == 0 {
        return Err(owned("после правки не осталось ни одного шага"));
    }
    Ok(steps)
}

// ---------------------------------------------------------------------
// The survey
// ---------------------------------------------------------------------

/// One question and its answer.
#[derive(Debug, Clone)]
pub struct Turn {
    pub question: String,
    pub answer: String,
}

/// The survey: the model built so far and the log of the conversation.
#[derive(Debug)]
pub struct Interview {
    pub model: Option<Idef0Model>,
    pub log: Vec<Turn>,
}

/// The number of errors among violations.
pub open spec fn error_count(vs: Seq<ViolationModel>) -> nat
    decreases vs.len(),
{
    if vs.len() == 0 {
        0
    } else {
        error_count(vs.drop_last()) + if vs.last().severity == Severity::Error {
            1nat
        } else {
            0nat
        }
    }
}

/// The errors the validator reports for a model.
pub open spec fn model_errors(c: BlockModel) -> nat {
    error_count(model_violations(c))
}

fn count_errors(model: &Idef0Model) -> (res: usize)
    ensures
        res == model_errors(model.context@),
{
    let vs = validate_model(model);
    let ghost vv = violation_views(vs@);
    let mut n: usize = 0;
    for i in 0..vs.len()
        invariant
            vv == violation_views(vs@),
            n == error_count(vv.take(i as int)),
            n <= i,
    {
        assert(vv.take(i + 1).drop_last() =~= vv.take(i as int));
        assert(vv[i as int] == vs@[i as int]@);
        if vs[i].severity == Severity::Error {
            n += 1;
        }
    }
    assert(vv.take(vs.len() as int) =~= vv);
    n
}

pub open spec fn rejected_fix_message(before: nat, after: nat) -> Seq<char> {
    "правка отклонена: ошибок было "@ + decimal(before) + ", стало "@ + decimal(after)
        + " — модель осталась прежней, переспросите клиента"@
}

/// The frame with `steps` as its decomposition.
pub open spec fn with_steps(c: BlockModel, steps: Seq<BlockModel>) -> BlockModel {
    BlockModel { children: steps, ..c }
}

fn replace_steps(context: &Block, steps: Vec<Block>) -> (res: Block)
    ensures
        res@ == with_steps(context@, block_views(steps@)),
{
    let mut b = context.duplicate();
    let ghost sv = block_views(steps@);
    b.children = steps;
    assert(b@.children =~= sv);
    assert(b@ =~= with_steps(context@, sv));
    b
}

impl Interview {
    pub fn new() -> (res: Interview)
        ensures
            res.model is None,
            res.log@.len() == 0,
    {
        Interview { model: None, log: Vec::new() }
    }

    /// The current question, from the state alone.
    pub fn question(&self) -> (res: Question)
        ensures
            res@ == next_question_of(model_context(self.model)),
    {
        next_question(&self.model)
    }

    /// The model, once the survey is over.
    pub fn finished_model(&self) -> (res: Option<&Idef0Model>)
        ensures
            match res {
                Some(m) => self.model == Some(*m) && next_question_of(model_context(self.model)) is Confirm,
                None => !(self.model is Some && next_question_of(model_context(self.model)) is Confirm),
            },
    {
        let q = self.question();
        match &self.model {
            Some(m) => match q {
                Question::Confirm => Some(m),
                _ => None,
            },
            None => None,
        }
    }

    /// Logs an answer to the current question and returns that question:
    /// what the answer is taken for depends on it.
    pub fn record(&mut self, answer: &str) -> (res: Question)
        ensures
            res@ == next_question_of(model_context(old(self).model)),
            final(self).model == old(self).model,
            final(self).log@.len() == old(self).log@.len() + 1,
            forall|i: int| 0 <= i < old(self).log@.len() ==> final(self).log@[i] == old(self).log@[i],
            final(self).log@.last().question@ == question_text(res@),
            final(self).log@.last().answer@ == answer@,
    {
        let q = self.question();
        let t = q.text();
        self.log.push(Turn { question: t, answer: owned(answer) });
        q
    }

    /// Takes the extracted frame as the model.
    pub fn accept_context(&mut self, model: Idef0Model) -> (res: Question)
        ensures
            model_context(final(self).model) == Some(model.context@),
            final(self).log == old(self).log,
            res@ == next_question_of(Some(model.context@)),
    {
        self.model = Some(model);
        self.question()
    }

    /// Takes the extracted steps as the decomposition of the frame.
    pub fn accept_steps(&mut self, steps: Vec<Block>) -> (res: Question)
        requires
            old(self).model is Some,
        ensures
            model_context(final(self).model) == Some(with_steps(old(self).model->0.context@, block_views(steps@))),
            final(self).log == old(self).log,
            res@ == next_question_of(model_context(final(self).model)),
    {
        let context = match &self.model {
            Some(m) => replace_steps(&m.context, steps),
            None => {
                return Question::Context;
            },
        };
        self.model = Some(Idef0Model { context });
        self.question()
    }

    /// Takes corrected steps, unless they make the model worse: a fix that
    /// leaves more errors than before is refused and the model is kept, or
    /// the conversation would loop on an ever more broken model.
    pub fn accept_fix(&mut self, steps: Vec<Block>) -> (res: Result<Question, String>)
        requires
            old(self).model is Some,
        ensures
            final(self).log == old(self).log,
            ({
                let before = old(self).model->0.context@;
                let candidate = with_steps(before, block_views(steps@));
                match res {
                    Ok(q) => model_errors(candidate) <= model_errors(before) && model_context(final(self).model) == Some(
                        candidate,
                    ) && q@ == next_question_of(Some(candidate)),
                    Err(m) => model_errors(candidate) > model_errors(before) && model_context(final(self).model)
                        == model_context(old(self).model) && m@ == rejected_fix_message(
                        model_errors(before),
                        model_errors(candidate),
                    ),
                }
            }),
    {
        let (before, candidate) = match &self.model {
            Some(m) => {
                let before = count_errors(m);
                let candidate = Idef0Model { context: replace_steps(&m.context, steps) };
                (before, candidate)
            },
            None => {
                return Ok(Question::Context);
            },
        };
        let after = count_errors(&candidate);
        if after > before {
            let mut m = owned("правка отклонена: ошибок было ");
            let b = usize_to_string(before);
            append(&mut m, b.as_str());
            append(&mut m, ", стало ");
            let a = usize_to_string(after);
            append(&mut m, a.as_str());
            append(&mut m, " — модель осталась прежней, переспросите клиента");
            return Err(m);
        }
        self.model = Some(candidate);
        Ok(self.question())
    }
}

} // verus!
