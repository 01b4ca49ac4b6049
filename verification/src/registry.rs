//! The registry of node kinds. Each kind is declared once, as a
//! `NodeKindSpec`; the EBNF production of its body, the order of its slots
//! in the canonical form, the kind/subtype compatibility table, the slot
//! keywords of the lexer and the decoding constraint are all derived from
//! that single declaration.

use vstd::prelude::*;
use crate::keyed_map::{KeyedMap, keys_sorted};
use crate::text::{append, ascii_lowercase, ascii_lower_char, join, join_strings, owned, str_eq, string_views};

verus! {

#[derive(Debug, Clone, Copy, PartialEq, Eq, Structural, PartialOrd, Ord, Hash)]
pub enum Kind {
    Role,
    Task,
    Filter,
    Step,
    Classify,
    Spawn,
    Tool,
    Document,
    RejectMark,
}

#[derive(Debug, Clone, Copy, PartialEq, Eq, Structural, PartialOrd, Ord, Hash)]
pub enum Subtype {
    Generative,
    External,
    Reject,
}

/// All kinds, in declaration order.
pub open spec fn all_kinds() -> Seq<Kind> {
    seq![
        Kind::Role,
        Kind::Task,
        Kind::Filter,
        Kind::Step,
        Kind::Classify,
        Kind::Spawn,
        Kind::Tool,
        Kind::Document,
        Kind::RejectMark,
    ]
}

pub open spec fn kind_name(k: Kind) -> Seq<char> {
    match k {
        Kind::Role => "ROLE"@,
        Kind::Task => "TASK"@,
        Kind::Filter => "FILTER"@,
        Kind::Step => "STEP"@,
        Kind::Classify => "CLASSIFY"@,
        Kind::Spawn => "SPAWN"@,
        Kind::Tool => "TOOL"@,
        Kind::Document => "DOCUMENT"@,
        Kind::RejectMark => "REJECT_MARK"@,
    }
}

/// The kind whose name is `s`, if any.
pub open spec fn kind_from_name(s: Seq<char>) -> Option<Kind> {
    if s == "ROLE"@ {
        Some(Kind::Role)
    } else if s == "TASK"@ {
        Some(Kind::Task)
    } else if s == "FILTER"@ {
        Some(Kind::Filter)
    } else if s == "STEP"@ {
        Some(Kind::Step)
    } else if s == "CLASSIFY"@ {
        Some(Kind::Classify)
    } else if s == "SPAWN"@ {
        Some(Kind::Spawn)
    } else if s == "TOOL"@ {
        Some(Kind::Tool)
    } else if s == "DOCUMENT"@ {
        Some(Kind::Document)
    } else if s == "REJECT_MARK"@ {
        Some(Kind::RejectMark)
    } else {
        None
    }
}

pub open spec fn subtype_name(t: Subtype) -> Seq<char> {
    match t {
        Subtype::Generative => "GENERATIVE"@,
        Subtype::External => "EXTERNAL"@,
        Subtype::Reject => "REJECT"@,
    }
}

pub open spec fn subtype_from_name(s: Seq<char>) -> Option<Subtype> {
    if s == "GENERATIVE"@ {
        Some(Subtype::Generative)
    } else if s == "EXTERNAL"@ {
        Some(Subtype::External)
    } else if s == "REJECT"@ {
        Some(Subtype::Reject)
    } else {
        None
    }
}

/// Constrained decoding applies exactly to the generative kinds: every
/// generative kind has an output grammar, and no other kind has one.
pub proof fn lemma_decoding_only_for_generative(k: Kind)
    ensures
        (kind_spec(k).subtype == Subtype::Generative && kind_spec(k).output_ebnf is Some) <==> kind_subtype(k)
            == Subtype::Generative,
        kind_spec(k).output_ebnf is Some <==> kind_subtype(k) == Subtype::Generative,
{
}

/// The names of the kinds are pairwise distinct, so naming a kind and
/// reading the name back gives the kind again.
proof fn lemma_neq_at(a: Seq<char>, b: Seq<char>, i: int)
    requires
        0 <= i < a.len(),
        i < b.len(),
        a[i] != b[i],
    ensures
        a != b,
{
}

/// The names of the kinds are pairwise distinct, so naming a kind and
/// reading the name back gives the kind again.
pub proof fn lemma_kind_name_round_trip(k: Kind)
    ensures
        kind_from_name(kind_name(k)) == Some(k),
{
    reveal_strlit("ROLE");
    reveal_strlit("TASK");
    reveal_strlit("FILTER");
    reveal_strlit("STEP");
    reveal_strlit("CLASSIFY");
    reveal_strlit("SPAWN");
    reveal_strlit("TOOL");
    reveal_strlit("DOCUMENT");
    reveal_strlit("REJECT_MARK");
    let names = seq!["ROLE"@, "TASK"@, "FILTER"@, "STEP"@, "CLASSIFY"@, "SPAWN"@, "TOOL"@, "DOCUMENT"@, "REJECT_MARK"@];
    assert forall|i: int, j: int| 0 <= i < j < 9 implies #[trigger] names[i] != #[trigger] names[j] by {
        if names[i][0] != names[j][0] {
            lemma_neq_at(names[i], names[j], 0);
        } else {
            lemma_neq_at(names[i], names[j], 1);
        }
    }
    assert(names[0] != names[1]);
    assert(names[0] != names[2]);
    assert(names[0] != names[3]);
    assert(names[0] != names[4]);
    assert(names[0] != names[5]);
    assert(names[0] != names[6]);
    assert(names[0] != names[7]);
    assert(names[0] != names[8]);
    assert(names[1] != names[2]);
    assert(names[1] != names[3]);
    assert(names[1] != names[4]);
    assert(names[1] != names[5]);
    assert(names[1] != names[6]);
    assert(names[1] != names[7]);
    assert(names[1] != names[8]);
    assert(names[2] != names[3]);
    assert(names[2] != names[4]);
    assert(names[2] != names[5]);
    assert(names[2] != names[6]);
    assert(names[2] != names[7]);
    assert(names[2] != names[8]);
    assert(names[3] != names[4]);
    assert(names[3] != names[5]);
    assert(names[3] != names[6]);
    assert(names[3] != names[7]);
    assert(names[3] != names[8]);
    assert(names[4] != names[5]);
    assert(names[4] != names[6]);
    assert(names[4] != names[7]);
    assert(names[4] != names[8]);
    assert(names[5] != names[6]);
    assert(names[5] != names[7]);
    assert(names[5] != names[8]);
    assert(names[6] != names[7]);
    assert(names[6] != names[8]);
    assert(names[7] != names[8]);
}

/// Naming a subtype and reading the name back gives the subtype again.
pub proof fn lemma_subtype_name_round_trip(t: Subtype)
    ensures
        subtype_from_name(subtype_name(t)) == Some(t),
{
    reveal_strlit("GENERATIVE");
    reveal_strlit("EXTERNAL");
    reveal_strlit("REJECT");
    lemma_neq_at("GENERATIVE"@, "EXTERNAL"@, 0);
    lemma_neq_at("GENERATIVE"@, "REJECT"@, 0);
    lemma_neq_at("EXTERNAL"@, "REJECT"@, 0);
}

impl Kind {
    pub const ALL: [Kind; 9] = [
        Kind::Role,
        Kind::Task,
        Kind::Filter,
        Kind::Step,
        Kind::Classify,
        Kind::Spawn,
        Kind::Tool,
        Kind::Document,
        Kind::RejectMark,
    ];

    /// All kinds, in declaration order.
    pub fn all() -> (res: Vec<Kind>)
        ensures
            res@ == all_kinds(),
    {
        let res = vec![
            Kind::Role,
            Kind::Task,
            Kind::Filter,
            Kind::Step,
            Kind::Classify,
            Kind::Spawn,
            Kind::Tool,
            Kind::Document,
            Kind::RejectMark,
        ];
        assert(res@ =~= all_kinds());
        res
    }

    pub fn as_str(self) -> (res: &'static str)
        ensures
            res@ == kind_name(self),
    {
        match self {
            Kind::Role => "ROLE",
            Kind::Task => "TASK",
            Kind::Filter => "FILTER",
            Kind::Step => "STEP",
            Kind::Classify => "CLASSIFY",
            Kind::Spawn => "SPAWN",
            Kind::Tool => "TOOL",
            Kind::Document => "DOCUMENT",
            Kind::RejectMark => "REJECT_MARK",
        }
    }

    /// The first kind of `ALL` whose name is `s`.
    pub fn parse(s: &str) -> (res: Option<Kind>)
        ensures
            res == kind_from_name(s@),
    {
        if str_eq(s, "ROLE") {
            Some(Kind::Role)
        } else if str_eq(s, "TASK") {
            Some(Kind::Task)
        } else if str_eq(s, "FILTER") {
            Some(Kind::Filter)
        } else if str_eq(s, "STEP") {
            Some(Kind::Step)
        } else if str_eq(s, "CLASSIFY") {
            Some(Kind::Classify)
        } else if str_eq(s, "SPAWN") {
            Some(Kind::Spawn)
        } else if str_eq(s, "TOOL") {
            Some(Kind::Tool)
        } else if str_eq(s, "DOCUMENT") {
            Some(Kind::Document)
        } else if str_eq(s, "REJECT_MARK") {
            Some(Kind::RejectMark)
        } else {
            None
        }
    }
}

impl Subtype {
    pub fn as_str(self) -> (res: &'static str)
        ensures
            res@ == subtype_name(self),
    {
        match self {
            Subtype::Generative => "GENERATIVE",
            Subtype::External => "EXTERNAL",
            Subtype::Reject => "REJECT",
        }
    }

    pub fn parse(s: &str) -> (res: Option<Subtype>)
        ensures
            res == subtype_from_name(s@),
    {
        if str_eq(s, "GENERATIVE") {
            Some(Subtype::Generative)
        } else if str_eq(s, "EXTERNAL") {
            Some(Subtype::External)
        } else if str_eq(s, "REJECT") {
            Some(Subtype::Reject)
        } else {
            None
        }
    }
}

// ---------------------------------------------------------------------
// Slots and kind specifications
// ---------------------------------------------------------------------

/// The type of a slot's value.
#[derive(Debug, Clone, PartialEq, Eq)]
pub enum SlotValue {
    String,
    Ident,
    Condition,
    Args,
    /// A closed set of options.
    Enum(Vec<&'static str>),
}

pub enum SlotValueModel {
    Str,
    Ident,
    Cond,
    Args,
    Enum(Seq<Seq<char>>),
}

impl View for SlotValue {
    type V = SlotValueModel;

    open spec fn view(&self) -> SlotValueModel {
        match self {
            SlotValue::String => SlotValueModel::Str,
            SlotValue::Ident => SlotValueModel::Ident,
            SlotValue::Condition => SlotValueModel::Cond,
            SlotValue::Args => SlotValueModel::Args,
            SlotValue::Enum(opts) => SlotValueModel::Enum(opts@.map_values(|o: &'static str| o@)),
        }
    }
}

#[derive(Debug, Clone)]
pub struct Slot {
    pub keyword: &'static str,
    pub name: &'static str,
    pub value: SlotValue,
}

pub struct SlotModel {
    pub keyword: Seq<char>,
    pub name: Seq<char>,
    pub value: SlotValueModel,
}

impl View for Slot {
    type V = SlotModel;

    open spec fn view(&self) -> SlotModel {
        SlotModel { keyword: self.keyword@, name: self.name@, value: self.value@ }
    }
}

/// The output grammar of a generative kind.
#[derive(Debug, Clone, Copy)]
pub enum OutputEbnf {
    Literal(&'static str),
    /// SPAWN: the grammar of a Luck node, assembled from the registry.
    NodeGrammar,
    /// CLASSIFY: derived from the node's own labels.
    Dynamic,
}

pub enum EbnfModel {
    Literal(Seq<char>),
    NodeGrammar,
    Dynamic,
}

impl View for OutputEbnf {
    type V = EbnfModel;

    open spec fn view(&self) -> EbnfModel {
        match self {
            OutputEbnf::Literal(s) => EbnfModel::Literal(s@),
            OutputEbnf::NodeGrammar => EbnfModel::NodeGrammar,
            OutputEbnf::Dynamic => EbnfModel::Dynamic,
        }
    }
}

#[derive(Debug, Clone)]
pub struct NodeKindSpec {
    pub kind: Kind,
    pub subtype: Subtype,
    pub slots: Vec<Slot>,
    pub doc: &'static str,
    pub output_ebnf: Option<OutputEbnf>,
    pub stop_tokens: Vec<&'static str>,
    pub normalized_slots: Vec<&'static str>,
}

pub struct KindSpecModel {
    pub kind: Kind,
    pub subtype: Subtype,
    pub slots: Seq<SlotModel>,
    pub doc: Seq<char>,
    pub output_ebnf: Option<EbnfModel>,
    pub stop_tokens: Seq<Seq<char>>,
    pub normalized_slots: Seq<Seq<char>>,
}

pub open spec fn str_views(v: Seq<&'static str>) -> Seq<Seq<char>> {
    v.map_values(|s: &'static str| s@)
}

impl View for NodeKindSpec {
    type V = KindSpecModel;

    open spec fn view(&self) -> KindSpecModel {
        KindSpecModel {
            kind: self.kind,
            subtype: self.subtype,
            slots: self.slots@.map_values(|s: Slot| s@),
            doc: self.doc@,
            output_ebnf: match self.output_ebnf {
                Some(e) => Some(e@),
                None => None,
            },
            stop_tokens: str_views(self.stop_tokens@),
            normalized_slots: str_views(self.normalized_slots@),
        }
    }
}

pub open spec fn slot_model(keyword: Seq<char>, name: Seq<char>, value: SlotValueModel) -> SlotModel {
    SlotModel { keyword, name, value }
}

/// The subtype a kind is registered with.
pub open spec fn kind_subtype(k: Kind) -> Subtype {
    match k {
        Kind::Role | Kind::Task | Kind::Filter | Kind::Step | Kind::Classify | Kind::Spawn => Subtype::Generative,
        Kind::Tool | Kind::Document => Subtype::External,
        Kind::RejectMark => Subtype::Reject,
    }
}

/// The options of the REJECT_MARK `REASON` slot.
pub open spec fn reject_reasons() -> Seq<Seq<char>> {
    seq!["SYNTAX"@, "TYPE"@, "BUDGET"@]
}

/// The slots of a kind's body, in grammar order.
pub open spec fn kind_slots(k: Kind) -> Seq<SlotModel> {
    match k {
        Kind::Role => seq![slot_model("AS"@, "as"@, SlotValueModel::Str)],
        Kind::Task => seq![
            slot_model("GIVEN"@, "given"@, SlotValueModel::Str),
            slot_model("PRODUCE"@, "produce"@, SlotValueModel::Str),
        ],
        Kind::Filter => seq![
            slot_model("WHERE"@, "where"@, SlotValueModel::Cond),
            slot_model("INTO"@, "into"@, SlotValueModel::Ident),
        ],
        Kind::Step => seq![
            slot_model("DO"@, "do"@, SlotValueModel::Str),
            slot_model("INTO"@, "into"@, SlotValueModel::Ident),
        ],
        Kind::Classify => seq![
            slot_model("INPUT"@, "input"@, SlotValueModel::Str),
            slot_model("LABELS"@, "labels"@, SlotValueModel::Args),
            slot_model("INTO"@, "into"@, SlotValueModel::Ident),
        ],
        Kind::Spawn => seq![
            slot_model("PLAN"@, "plan"@, SlotValueModel::Str),
            slot_model("INTO"@, "into"@, SlotValueModel::Ident),
        ],
        Kind::Tool => seq![
            slot_model("CALL"@, "tool"@, SlotValueModel::Ident),
            slot_model("WITH"@, "args"@, SlotValueModel::Args),
        ],
        Kind::Document => seq![slot_model("FROM"@, "from"@, SlotValueModel::Str)],
        Kind::RejectMark => seq![
            slot_model("CAUSE"@, "cause"@, SlotValueModel::Ident),
            slot_model("REASON"@, "reason"@, SlotValueModel::Enum(reject_reasons())),
        ],
    }
}

pub open spec fn kind_output_ebnf(k: Kind) -> Option<EbnfModel> {
    match k {
        Kind::Role => Some(EbnfModel::Literal("output = \"\" ;"@)),
        Kind::Task => Some(EbnfModel::Literal("output = text ; text = char , { char } ;"@)),
        Kind::Filter => Some(EbnfModel::Literal("output = \"MATCH\" | \"NO_MATCH\" ;"@)),
        Kind::Step => Some(
            EbnfModel::Literal("output = \"RESULT\" , \":\" , text ; text = char , { char } ;"@),
        ),
        Kind::Classify => Some(EbnfModel::Dynamic),
        Kind::Spawn => Some(EbnfModel::NodeGrammar),
        _ => None,
    }
}

pub open spec fn kind_stop_tokens(k: Kind) -> Seq<Seq<char>> {
    match k {
        Kind::Role | Kind::Filter | Kind::Classify => seq!["\n"@],
        Kind::Task | Kind::Step => seq!["\n\n"@],
        Kind::Spawn => seq!["\n\n\n"@],
        _ => Seq::empty(),
    }
}

pub open spec fn kind_normalized_slots(k: Kind) -> Seq<Seq<char>> {
    match k {
        Kind::Classify => seq!["labels"@],
        Kind::Tool => seq!["args"@],
        _ => Seq::empty(),
    }
}

pub open spec fn kind_doc(k: Kind) -> Seq<char> {
    match k {
        Kind::Role => "Задаёт роль/позицию, из которой ведётся рассуждение. Сам вывода не порождает."@,
        Kind::Task => "Задача: из данного входа произвести описанный результат."@,
        Kind::Filter => "Проверка условия. Вывод строго бинарен — основа ветвления через '=>'."@,
        Kind::Step => "Шаг пайплайна с именованным результатом."@,
        Kind::Classify => "Классификация в закрытый набор меток. Ограничение decoding строится из самих меток — редкий случай, когда grammar зависит от содержимого узла."@,
        Kind::Spawn => "Порождающий узел: его вывод разбирается планировщиком как объявления узлов Luck и вставляется в граф. Замыкает цикл 6->1."@,
        Kind::Tool => "Вызов внешнего инструмента. Аргументы нормализуются сортировкой по имени — иначе нарушается префикс-стабильность."@,
        Kind::Document => "Загрузка внешнего документа как данных графа."@,
        Kind::RejectMark => "Отказ, представленный как полноценный узел, а не исключение вне графа. SYNTAX/TYPE — отказы валидации; BUDGET — исчерпание бюджета роста при динамическом порождении (ребро 6->1)."@,
    }
}

/// The registered specification of a kind.
pub open spec fn kind_spec(k: Kind) -> KindSpecModel {
    KindSpecModel {
        kind: k,
        subtype: kind_subtype(k),
        slots: kind_slots(k),
        doc: kind_doc(k),
        output_ebnf: kind_output_ebnf(k),
        stop_tokens: kind_stop_tokens(k),
        normalized_slots: kind_normalized_slots(k),
    }
}

fn mk_slot(keyword: &'static str, name: &'static str, value: SlotValue) -> (res: Slot)
    ensures
        res.keyword == keyword,
        res.name == name,
        res.value == value,
{
    Slot { keyword, name, value }
}

/// The registry entry of `kind`.
pub fn spec(kind: Kind) -> (res: NodeKindSpec)
    ensures
        res@ == kind_spec(kind),
{
    let (subtype, slots, doc, output_ebnf, stop_tokens, normalized_slots): (
        Subtype,
        Vec<Slot>,
        &'static str,
        Option<OutputEbnf>,
        Vec<&'static str>,
        Vec<&'static str>,
    ) = match kind {
        Kind::Role => (
            Subtype::Generative,
            vec![mk_slot("AS", "as", SlotValue::String)],
            "Задаёт роль/позицию, из которой ведётся рассуждение. Сам вывода не порождает.",
            Some(OutputEbnf::Literal("output = \"\" ;")),
            vec!["\n"],
            vec![],
        ),
        Kind::Task => (
            Subtype::Generative,
            vec![mk_slot("GIVEN", "given", SlotValue::String), mk_slot("PRODUCE", "produce", SlotValue::String)],
            "Задача: из данного входа произвести описанный результат.",
            Some(OutputEbnf::Literal("output = text ; text = char , { char } ;")),
            vec!["\n\n"],
            vec![],
        ),
        Kind::Filter => (
            Subtype::Generative,
            vec![mk_slot("WHERE", "where", SlotValue::Condition), mk_slot("INTO", "into", SlotValue::Ident)],
            "Проверка условия. Вывод строго бинарен — основа ветвления через '=>'.",
            Some(OutputEbnf::Literal("output = \"MATCH\" | \"NO_MATCH\" ;")),
            vec!["\n"],
            vec![],
        ),
        Kind::Step => (
            Subtype::Generative,
            vec![mk_slot("DO", "do", SlotValue::String), mk_slot("INTO", "into", SlotValue::Ident)],
            "Шаг пайплайна с именованным результатом.",
            Some(OutputEbnf::Literal("output = \"RESULT\" , \":\" , text ; text = char , { char } ;")),
            vec!["\n\n"],
            vec![],
        ),
        Kind::Classify => (
            Subtype::Generative,
            vec![
                mk_slot("INPUT", "input", SlotValue::String),
                mk_slot("LABELS", "labels", SlotValue::Args),
                mk_slot("INTO", "into", SlotValue::Ident),
            ],
            "Классификация в закрытый набор меток. Ограничение decoding строится из самих меток — редкий случай, когда grammar зависит от содержимого узла.",
            Some(OutputEbnf::Dynamic),
            vec!["\n"],
            vec!["labels"],
        ),
        Kind::Spawn => (
            Subtype::Generative,
            vec![mk_slot("PLAN", "plan", SlotValue::String), mk_slot("INTO", "into", SlotValue::Ident)],
            "Порождающий узел: его вывод разбирается планировщиком как объявления узлов Luck и вставляется в граф. Замыкает цикл 6->1.",
            Some(OutputEbnf::NodeGrammar),
            vec!["\n\n\n"],
            vec![],
        ),
        Kind::Tool => (
            Subtype::External,
            vec![mk_slot("CALL", "tool", SlotValue::Ident), mk_slot("WITH", "args", SlotValue::Args)],
            "Вызов внешнего инструмента. Аргументы нормализуются сортировкой по имени — иначе нарушается префикс-стабильность.",
            None,
            vec![],
            vec!["args"],
        ),
        Kind::Document => (
            Subtype::External,
            vec![mk_slot("FROM", "from", SlotValue::String)],
            "Загрузка внешнего документа как данных графа.",
            None,
            vec![],
            vec![],
        ),
        Kind::RejectMark => (
            Subtype::Reject,
            vec![
                mk_slot("CAUSE", "cause", SlotValue::Ident),
                mk_slot("REASON", "reason", SlotValue::Enum(vec!["SYNTAX", "TYPE", "BUDGET"])),
            ],
            "Отказ, представленный как полноценный узел, а не исключение вне графа. SYNTAX/TYPE — отказы валидации; BUDGET — исчерпание бюджета роста при динамическом порождении (ребро 6->1).",
            None,
            vec![],
            vec![],
        ),
    };
    let res = NodeKindSpec { kind, subtype, slots, doc, output_ebnf, stop_tokens, normalized_slots };
    proof {
        let m = res@;
        if kind == Kind::RejectMark {
            assert(str_views(seq!["SYNTAX", "TYPE", "BUDGET"]) =~= reject_reasons());
            assert(m.slots[1].value == kind_slots(kind)[1].value);
        }
        assert(m.slots.len() == kind_slots(kind).len());
        assert(forall|i: int| 0 <= i < m.slots.len() ==> m.slots[i].keyword == kind_slots(kind)[i].keyword);
        assert(forall|i: int| 0 <= i < m.slots.len() ==> m.slots[i].name == kind_slots(kind)[i].name);
        assert(m.slots =~= kind_slots(kind));
        assert(m.stop_tokens =~= kind_stop_tokens(kind));
        assert(m.normalized_slots =~= kind_normalized_slots(kind));
    }
    res
}

// ---------------------------------------------------------------------
// Derived views of the registry
// ---------------------------------------------------------------------

/// `s` between double quotes.
pub open spec fn quote(s: Seq<char>) -> Seq<char> {
    seq!['"'] + s + seq!['"']
}

/// The EBNF symbol for a slot's value.
pub open spec fn value_symbol_of(v: SlotValueModel) -> Seq<char> {
    match v {
        SlotValueModel::Str => "string_literal"@,
        SlotValueModel::Ident => "identifier"@,
        SlotValueModel::Cond => "condition"@,
        SlotValueModel::Args => "arg_list"@,
        SlotValueModel::Enum(opts) => "( "@ + join(opts.map_values(|o: Seq<char>| quote(o)), " | "@) + " )"@,
    }
}

/// One slot's term in a body production: its quoted keyword, then its value symbol.
pub open spec fn slot_term(s: SlotModel) -> Seq<char> {
    quote(s.keyword) + " , "@ + value_symbol_of(s.value)
}

/// `<kind>_body = <slot term> , <slot term> ... ;`, the kind's name in lowercase
/// (kind names are ASCII).
pub open spec fn body_production(kind: Kind, slots: Seq<SlotModel>) -> Seq<char> {
    kind_name(kind).map_values(|c: char| ascii_lower_char(c)) + "_body = "@ + join(
        slots.map_values(|s: SlotModel| slot_term(s)),
        " , "@,
    ) + " ;"@
}

pub(crate) fn quoted(s: &str) -> (res: String)
    ensures
        res@ == quote(s@),
{
    let mut r = String::new();
    crate::text::push_char(&mut r, '"');
    append(&mut r, s);
    crate::text::push_char(&mut r, '"');
    assert(r@ =~= quote(s@));
    r
}

impl NodeKindSpec {
    /// Constrained decoding applies to generative kinds with an output grammar.
    pub fn has_decoding(&self) -> (res: bool)
        ensures
            res == (self.subtype == Subtype::Generative && self.output_ebnf.is_some()),
    {
        self.subtype == Subtype::Generative && self.output_ebnf.is_some()
    }

    fn value_symbol(slot: &Slot) -> (res: String)
        ensures
            res@ == value_symbol_of(slot.value@),
    {
        match &slot.value {
            SlotValue::String => owned("string_literal"),
            SlotValue::Ident => owned("identifier"),
            SlotValue::Condition => owned("condition"),
            SlotValue::Args => owned("arg_list"),
            SlotValue::Enum(opts) => {
                let mut alts: Vec<String> = Vec::new();
                for i in 0..opts.len()
                    invariant
                        alts.len() == i,
                        forall|j: int| 0 <= j < i ==> #[trigger] alts@[j]@ == quote(opts@[j]@),
                {
                    alts.push(quoted(opts[i]));
                }
                let mut r = owned("( ");
                let inner = join_strings(&alts, " | ");
                append(&mut r, inner.as_str());
                append(&mut r, " )");
                assert(string_views(alts@) =~= opts@.map_values(|o: &'static str| o@).map_values(
                    |o: Seq<char>| quote(o),
                ));
                r
            },
        }
    }

    /// The EBNF production of the node body.
    pub fn ebnf_production(&self) -> (res: String)
        ensures
            res@ == body_production(self.kind, self@.slots),
    {
        let mut parts: Vec<String> = Vec::new();
        for i in 0..self.slots.len()
            invariant
                parts.len() == i,
                forall|j: int| 0 <= j < i ==> #[trigger] parts@[j]@ == slot_term(self.slots@[j]@),
        {
            let s = &self.slots[i];
            let mut t = quoted(s.keyword);
            append(&mut t, " , ");
            let v = Self::value_symbol(s);
            append(&mut t, v.as_str());
            parts.push(t);
        }
        let mut r = ascii_lowercase(self.kind.as_str());
        append(&mut r, "_body = ");
        let body = join_strings(&parts, " , ");
        append(&mut r, body.as_str());
        append(&mut r, " ;");
        assert(string_views(parts@) =~= self@.slots.map_values(|s: SlotModel| slot_term(s)));
        r
    }
}

/// The filter that keeps the kinds registered with subtype `t`.
pub open spec fn subtype_is(t: Subtype) -> spec_fn(Kind) -> bool {
    |k: Kind| kind_subtype(k) == t
}

/// The kinds registered with subtype `t`, in kind order.
pub open spec fn kinds_of(t: Subtype) -> Seq<Kind> {
    all_kinds().filter(subtype_is(t))
}

/// All subtypes, in their order.
pub open spec fn all_subtypes() -> Seq<Subtype> {
    seq![Subtype::Generative, Subtype::External, Subtype::Reject]
}

fn kinds_with(t: Subtype) -> (res: Vec<Kind>)
    ensures
        res@ == kinds_of(t),
{
    let all = Kind::all();
    let mut res: Vec<Kind> = Vec::new();
    for i in 0..all.len()
        invariant
            all@ == all_kinds(),
            res@ == all_kinds().take(i as int).filter(subtype_is(t)),
    {
        let k = all[i];
        let entry = spec(k);
        if entry.subtype == t {
            res.push(k);
        }
        proof {
            assert(all_kinds().take(i + 1) =~= all_kinds().take(i as int).push(k));
            all_kinds().take(i as int).lemma_filter_push(k, subtype_is(t));
        }
    }
    assert(all_kinds().take(9) =~= all_kinds());
    res
}

/// The kind/subtype compatibility table, derived from the registry: each
/// subtype, in order, with the kinds registered under it.
pub fn subtype_kinds() -> (res: Vec<(Subtype, Vec<Kind>)>)
    ensures
        res@.len() == all_subtypes().len(),
        forall|i: int|
            0 <= i < res@.len() ==> (#[trigger] res@[i]).0 == all_subtypes()[i] && res@[i].1@ == kinds_of(
                all_subtypes()[i],
            ),
{
    let mut res: Vec<(Subtype, Vec<Kind>)> = Vec::new();
    res.push((Subtype::Generative, kinds_with(Subtype::Generative)));
    res.push((Subtype::External, kinds_with(Subtype::External)));
    res.push((Subtype::Reject, kinds_with(Subtype::Reject)));
    res
}

/// The order of slots in the canonical form of a node of `kind`.
pub fn canonical_slot_order(kind: Kind) -> (res: Vec<&'static str>)
    ensures
        str_views(res@) == kind_slots(kind).map_values(|s: SlotModel| s.name),
{
    let entry = spec(kind);
    let mut res: Vec<&'static str> = Vec::new();
    for i in 0..entry.slots.len()
        invariant
            entry@ == kind_spec(kind),
            res.len() == i,
            forall|j: int| 0 <= j < i ==> #[trigger] res@[j]@ == entry.slots@[j].name@,
    {
        res.push(entry.slots[i].name);
    }
    proof {
        assert(entry@.slots == kind_slots(kind));
        assert forall|j: int| 0 <= j < res.len() implies #[trigger] str_views(res@)[j] == kind_slots(
            kind,
        ).map_values(|s: SlotModel| s.name)[j] by {
            assert(entry@.slots[j] == entry.slots@[j]@);
        }
        assert(str_views(res@) =~= kind_slots(kind).map_values(|s: SlotModel| s.name));
    }
    res
}

/// The message for a kind declared with a subtype other than its own.
pub open spec fn kind_subtype_error(k: Kind, t: Subtype) -> Seq<char> {
    "kind '"@ + kind_name(k) + "' объявлен с подтипом ["@ + subtype_name(t) + "], но зарегистрирован как ["@
        + subtype_name(kind_subtype(k)) + "]"@
}

/// Checks that `kind` is declared with the subtype it is registered with.
pub fn validate_kind_subtype(kind: Kind, subtype: Subtype) -> (res: Result<(), String>)
    ensures
        match res {
            Ok(()) => kind_subtype(kind) == subtype,
            Err(m) => kind_subtype(kind) != subtype && m@ == kind_subtype_error(kind, subtype),
        },
{
    let entry = spec(kind);
    if entry.subtype != subtype {
        let mut m = owned("kind '");
        append(&mut m, kind.as_str());
        append(&mut m, "' объявлен с подтипом [");
        append(&mut m, subtype.as_str());
        append(&mut m, "], но зарегистрирован как [");
        append(&mut m, entry.subtype.as_str());
        append(&mut m, "]");
        return Err(m);
    }
    Ok(())
}

// ---------------------------------------------------------------------
// Slot keywords (for the lexer)
// ---------------------------------------------------------------------

/// `w` is a word of slot `s`: its keyword, or one of its enumerated options.
pub open spec fn slot_has_word(s: SlotModel, w: Seq<char>) -> bool {
    s.keyword == w || match s.value {
        SlotValueModel::Enum(opts) => opts.contains(w),
        _ => false,
    }
}

/// `w` is a word of one of the first `n` slots.
pub open spec fn slots_have_word(slots: Seq<SlotModel>, n: int, w: Seq<char>) -> bool {
    exists|j: int| 0 <= j < n && slot_has_word(#[trigger] slots[j], w)
}

/// `w` is a word of one of the first `n` kinds of the registry.
pub open spec fn kinds_have_word(n: int, w: Seq<char>) -> bool {
    exists|i: int| 0 <= i < n && slots_have_word(#[trigger] kind_slots(all_kinds()[i]), kind_slots(all_kinds()[i]).len() as int, w)
}

/// `w` is a slot keyword, or an enumerated option of a slot, of some kind.
pub open spec fn is_slot_word(w: Seq<char>) -> bool {
    kinds_have_word(all_kinds().len() as int, w)
}

proof fn lemma_slots_step(slots: Seq<SlotModel>, n: int, w: Seq<char>)
    requires
        0 <= n < slots.len(),
    ensures
        slots_have_word(slots, n + 1, w) == (slots_have_word(slots, n, w) || slot_has_word(slots[n], w)),
{
    if slots_have_word(slots, n + 1, w) {
        let j = choose|j: int| 0 <= j < n + 1 && slot_has_word(#[trigger] slots[j], w);
        if j < n {
            assert(slots_have_word(slots, n, w));
        }
    }
    if slots_have_word(slots, n, w) {
        let j = choose|j: int| 0 <= j < n && slot_has_word(#[trigger] slots[j], w);
        assert(0 <= j < n + 1 && slot_has_word(slots[j], w));
    }
    if slot_has_word(slots[n], w) {
        assert(0 <= n < n + 1 && slot_has_word(slots[n], w));
    }
}

proof fn lemma_kinds_step(n: int, w: Seq<char>)
    requires
        0 <= n < all_kinds().len(),
    ensures
        kinds_have_word(n + 1, w) == (kinds_have_word(n, w) || slots_have_word(
            kind_slots(all_kinds()[n]),
            kind_slots(all_kinds()[n]).len() as int,
            w,
        )),
{
    let f = |i: int| slots_have_word(kind_slots(all_kinds()[i]), kind_slots(all_kinds()[i]).len() as int, w);
    if kinds_have_word(n + 1, w) {
        let i = choose|i: int|
            0 <= i < n + 1 && slots_have_word(
                #[trigger] kind_slots(all_kinds()[i]),
                kind_slots(all_kinds()[i]).len() as int,
                w,
            );
        if i < n {
            assert(kinds_have_word(n, w));
        }
    }
    if kinds_have_word(n, w) {
        let i = choose|i: int|
            0 <= i < n && slots_have_word(
                #[trigger] kind_slots(all_kinds()[i]),
                kind_slots(all_kinds()[i]).len() as int,
                w,
            );
        assert(0 <= i < n + 1 && f(i));
    }
    if f(n) {
        assert(0 <= n < n + 1 && f(n));
    }
}

/// All slot keywords and enumerated options of the registry, in ascending
/// order, each once.
pub fn keywords() -> (res: Vec<String>)
    ensures
        keys_sorted(string_views(res@)),
        forall|w: Seq<char>| string_views(res@).contains(w) <==> is_slot_word(w),
{
    let mut set: KeyedMap<()> = KeyedMap::new();
    let all = Kind::all();
    for i in 0..all.len()
        invariant
            all@ == all_kinds(),
            forall|w: Seq<char>| #[trigger] set.has(w) <==> kinds_have_word(i as int, w),
    {
        let entry = spec(all[i]);
        let ghost slots = kind_slots(all_kinds()[i as int]);
        for j in 0..entry.slots.len()
            invariant
                all@ == all_kinds(),
                0 <= i < all_kinds().len(),
                slots == kind_slots(all_kinds()[i as int]),
                entry@ == kind_spec(all@[i as int]),
                forall|w: Seq<char>| #[trigger] set.has(w) <==> kinds_have_word(i as int, w) || slots_have_word(slots, j as int, w),
        {
            let slot = &entry.slots[j];
            let ghost sm = slot@;
            assert(sm == slots[j as int]);
            set.insert(owned(slot.keyword), ());
            match &slot.value {
                SlotValue::Enum(opts) => {
                    let ghost om = opts@.map_values(|o: &'static str| o@);
                    for o in 0..opts.len()
                        invariant
                            om == opts@.map_values(|o: &'static str| o@),
                            sm.value == SlotValueModel::Enum(om),
                            forall|w: Seq<char>| #[trigger] set.has(w) <==> kinds_have_word(i as int, w)
                                || slots_have_word(slots, j as int, w) || w == sm.keyword || om.take(o as int).contains(w),
                    {
                        set.insert(owned(opts[o]), ());
                        proof {
                            assert(om.take(o + 1) =~= om.take(o as int).push(om[o as int]));
                            assert forall|w: Seq<char>| #[trigger] om.take(o + 1).contains(w) == (om.take(o as int).contains(w) || w == om[o as int]) by {
                                if om.take(o + 1).contains(w) {
                                    let x = om.take(o + 1).index_of(w);
                                    if x < o {
                                        assert(om.take(o as int)[x] == w);
                                    }
                                }
                                if om.take(o as int).contains(w) {
                                    let x = om.take(o as int).index_of(w);
                                    assert(om.take(o + 1)[x] == w);
                                }
                                if w == om[o as int] {
                                    assert(om.take(o + 1)[o as int] == w);
                                }
                            }
                        }
                    }
                    proof {
                        assert(om.take(opts.len() as int) =~= om);
                    }
                },
                _ => {},
            }
            proof {
                assert forall|w: Seq<char>| #[trigger] set.has(w) <==> kinds_have_word(i as int, w) || slots_have_word(slots, j + 1, w) by {
                    lemma_slots_step(slots, j as int, w);
                }
            }
        }
        proof {
            assert forall|w: Seq<char>| #[trigger] set.has(w) <==> kinds_have_word(i + 1, w) by {
                lemma_kinds_step(i as int, w);
            }
        }
    }
    assert(forall|w: Seq<char>| #[trigger] set.has(w) <==> is_slot_word(w));
    set.lemma_sorted();
    let mut res: Vec<String> = Vec::new();
    let n = set.len();
    for i in 0..n
        invariant
            res.len() == i,
            n == set.key_seq().len(),
            forall|w: Seq<char>| #[trigger] set.has(w) <==> is_slot_word(w),
            forall|j: int| 0 <= j < i ==> #[trigger] res@[j]@ == set.key_seq()[j],
    {
        let k = set.key_at(i);
        res.push(owned(k.as_str()));
    }
    assert(string_views(res@) =~= set.key_seq());
    assert forall|w: Seq<char>| string_views(res@).contains(w) <==> is_slot_word(w) by {
        assert(set.has(w) == set.key_seq().contains(w));
    }
    res
}

} // verus!
