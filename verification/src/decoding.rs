//! Constrained decoding: the output grammar of a node, the one output a
//! degenerate grammar allows, the surface syntax of a node (what a model is
//! shown), a synthesized example node per kind, and the check of a model's
//! output against the node's grammar.

use vstd::prelude::*;
use crate::keyed_map::KeyedMap;
use crate::parser::{
    debug_list, fragment_parse_spec, parse_fragment, pair_views, slots_filled, sort_by_name, sort_pairs,
    ParseErrorModel, SlotData, SlotDataModel,
};
use crate::registry::{
    all_kinds, all_subtypes, kind_name, kind_slots, kind_spec, quote, quoted, spec, str_views, subtype_name,
    EbnfModel, Kind, KindSpecModel, OutputEbnf, SlotModel, SlotValue, SlotValueModel, Subtype,
};
use crate::text::{
    append, ascii_lower_char, ascii_lowercase, chars_to_string, contains_char, decimal, is_blank, is_prefix,
    is_suffix, join, join_strings, owned, split_str, split_seq, starts_with, starts_with_at, str_debug_string,
    str_eq, string_views, to_chars, trim, trim_char, trim_char_seq, trim_seq,
};

verus! {

#[derive(Debug, Clone)]
pub struct Constraint {
    pub definition: String,
    pub stop: Vec<&'static str>,
}

pub struct ConstraintModel {
    pub definition: Seq<char>,
    pub stop: Seq<Seq<char>>,
}

impl View for Constraint {
    type V = ConstraintModel;

    open spec fn view(&self) -> ConstraintModel {
        ConstraintModel { definition: self.definition@, stop: str_views(self.stop@) }
    }
}

// ---------------------------------------------------------------------
// Grammars
// ---------------------------------------------------------------------

/// The names in ascending order (a stable sort by name).
pub open spec fn sorted_names(s: Seq<Seq<char>>) -> Seq<Seq<char>> {
    sort_by_name(s.map_values(|x: Seq<char>| (x, Seq::<char>::empty()))).map_values(
        |p: (Seq<char>, Seq<char>)| p.0,
    )
}

pub open spec fn lower(s: Seq<char>) -> Seq<char> {
    s.map_values(|c: char| ascii_lower_char(c))
}

/// The grammar of a Luck node declaration, assembled from the registry:
/// the kinds in declaration order, the subtypes and the body productions
/// by name.
pub open spec fn node_grammar() -> Seq<char> {
    "output = { node_decl } ;\nnode_decl = \"NODE\" , identifier , \":\" , kind , \"[\" , subtype , \"]\" , node_body , \"END\" ;\nkind = "@
        + join(all_kinds().map_values(|k: Kind| quote(kind_name(k))), " | "@) + " ;\nsubtype = "@ + join(
        sorted_names(all_subtypes().map_values(|t: Subtype| subtype_name(t))).map_values(|n: Seq<char>| quote(n)),
        " | "@,
    ) + " ;\nnode_body = "@ + join(
        sorted_names(all_kinds().map_values(|k: Kind| kind_name(k))).map_values(
            |n: Seq<char>| lower(n) + "_body"@,
        ),
        " | "@,
    ) + " ;"@
}

/// The label pairs of a CLASSIFY node (none when the slot is not a list).
pub open spec fn label_pairs(slots: Map<Seq<char>, SlotDataModel>) -> Seq<(Seq<char>, Seq<char>)> {
    if slots.dom().contains("labels"@) {
        match slots["labels"@] {
            SlotDataModel::Args(p) => p,
            _ => Seq::empty(),
        }
    } else {
        Seq::empty()
    }
}

/// The grammar of a CLASSIFY output: one alternative per label, labels
/// ordered by name, each value without its quotes.
pub open spec fn dynamic_grammar(slots: Map<Seq<char>, SlotDataModel>) -> Seq<char> {
    let labels = sort_by_name(
        label_pairs(slots).map_values(|p: (Seq<char>, Seq<char>)| (p.0, trim_char_seq(p.1, '"'))),
    );
    "output = "@ + join(labels.map_values(|p: (Seq<char>, Seq<char>)| quote(p.1)), " | "@) + " ;"@
}

/// The decoding constraint of a node: none for kinds without decoding.
pub open spec fn constraint_of(kind: Kind, slots: Map<Seq<char>, SlotDataModel>) -> Option<ConstraintModel> {
    let e = kind_spec(kind);
    if e.subtype == Subtype::Generative && e.output_ebnf.is_some() {
        Some(
            ConstraintModel {
                definition: match e.output_ebnf.unwrap() {
                    EbnfModel::Literal(s) => s,
                    EbnfModel::NodeGrammar => node_grammar(),
                    EbnfModel::Dynamic => dynamic_grammar(slots),
                },
                stop: e.stop_tokens,
            },
        )
    } else {
        None
    }
}

fn sort_names(v: &Vec<String>) -> (res: Vec<String>)
    ensures
        string_views(res@) == sorted_names(string_views(v@)),
{
    let mut pairs: Vec<(String, String)> = Vec::new();
    for i in 0..v.len()
        invariant
            pairs.len() == i,
            forall|j: int| 0 <= j < i ==> (#[trigger] pairs@[j]).0@ == v@[j]@ && pairs@[j].1@ == Seq::<char>::empty(),
    {
        pairs.push((v[i].clone(), String::new()));
    }
    assert(pair_views(pairs@) =~= string_views(v@).map_values(|x: Seq<char>| (x, Seq::<char>::empty())));
    let sorted = sort_pairs(&pairs);
    let ghost sv = pair_views(sorted@);
    let mut res: Vec<String> = Vec::new();
    for i in 0..sorted.len()
        invariant
            sv == pair_views(sorted@),
            res.len() == i,
            forall|j: int| 0 <= j < i ==> #[trigger] res@[j]@ == sv[j].0,
    {
        res.push(sorted[i].0.clone());
    }
    assert(string_views(res@) =~= sv.map_values(|p: (Seq<char>, Seq<char>)| p.0));
    res
}

fn quote_all(v: &Vec<String>) -> (res: Vec<String>)
    ensures
        string_views(res@) == string_views(v@).map_values(|n: Seq<char>| quote(n)),
{
    let mut res: Vec<String> = Vec::new();
    for i in 0..v.len()
        invariant
            res.len() == i,
            forall|j: int| 0 <= j < i ==> #[trigger] res@[j]@ == quote(v@[j]@),
    {
        res.push(quoted(v[i].as_str()));
    }
    assert(string_views(res@) =~= string_views(v@).map_values(|n: Seq<char>| quote(n)));
    res
}

fn node_grammar_ebnf() -> (res: String)
    ensures
        res@ == node_grammar(),
{
    let kinds = Kind::all();
    let mut kind_names: Vec<String> = Vec::new();
    for i in 0..kinds.len()
        invariant
            kinds@ == all_kinds(),
            kind_names.len() == i,
            forall|j: int| 0 <= j < i ==> #[trigger] kind_names@[j]@ == kind_name(all_kinds()[j]),
    {
        kind_names.push(owned(kinds[i].as_str()));
    }
    assert(string_views(kind_names@) =~= all_kinds().map_values(|k: Kind| kind_name(k)));
    let quoted_kinds = quote_all(&kind_names);
    assert(string_views(quoted_kinds@) =~= all_kinds().map_values(|k: Kind| quote(kind_name(k))));
    let mut subtypes: Vec<String> = Vec::new();
    subtypes.push(owned(Subtype::Generative.as_str()));
    subtypes.push(owned(Subtype::External.as_str()));
    subtypes.push(owned(Subtype::Reject.as_str()));
    assert(string_views(subtypes@) =~= all_subtypes().map_values(|t: Subtype| subtype_name(t)));
    let sorted_subtypes = sort_names(&subtypes);
    let quoted_subtypes = quote_all(&sorted_subtypes);
    let sorted_kinds = sort_names(&kind_names);
    let mut bodies: Vec<String> = Vec::new();
    for i in 0..sorted_kinds.len()
        invariant
            bodies.len() == i,
            forall|j: int| 0 <= j < i ==> #[trigger] bodies@[j]@ == lower(sorted_kinds@[j]@) + "_body"@,
    {
        let mut b = ascii_lowercase(sorted_kinds[i].as_str());
        append(&mut b, "_body");
        bodies.push(b);
    }
    assert(string_views(bodies@) =~= string_views(sorted_kinds@).map_values(|n: Seq<char>| lower(n) + "_body"@));
    let mut r = owned(
        "output = { node_decl } ;\nnode_decl = \"NODE\" , identifier , \":\" , kind , \"[\" , subtype , \"]\" , node_body , \"END\" ;\nkind = ",
    );
    let k = join_strings(&quoted_kinds, " | ");
    append(&mut r, k.as_str());
    append(&mut r, " ;\nsubtype = ");
    let t = join_strings(&quoted_subtypes, " | ");
    append(&mut r, t.as_str());
    append(&mut r, " ;\nnode_body = ");
    let b = join_strings(&bodies, " | ");
    append(&mut r, b.as_str());
    append(&mut r, " ;");
    r
}

fn labels_of(slots: &KeyedMap<SlotData>) -> (res: Vec<(String, String)>)
    ensures
        pair_views(res@) == label_pairs(slots.deep()),
{
    match slots.get("labels") {
        Some(SlotData::Args(pairs)) => {
            let mut res: Vec<(String, String)> = Vec::new();
            for i in 0..pairs.len()
                invariant
                    res.len() == i,
                    forall|j: int| 0 <= j < i ==> (#[trigger] res@[j]).0@ == pairs@[j].0@ && res@[j].1@ == pairs@[j].1@,
            {
                res.push((pairs[i].0.clone(), pairs[i].1.clone()));
            }
            assert(pair_views(res@) =~= pair_views(pairs@));
            res
        },
        _ => {
            let res: Vec<(String, String)> = Vec::new();
            assert(pair_views(res@) =~= label_pairs(slots.deep()));
            res
        },
    }
}

fn dynamic_ebnf(slots: &KeyedMap<SlotData>) -> (res: String)
    ensures
        res@ == dynamic_grammar(slots.deep()),
{
    let raw = labels_of(slots);
    let mut stripped: Vec<(String, String)> = Vec::new();
    for i in 0..raw.len()
        invariant
            stripped.len() == i,
            forall|j: int| 0 <= j < i ==> (#[trigger] stripped@[j]).0@ == raw@[j].0@ && stripped@[j].1@ == trim_char_seq(raw@[j].1@, '"'),
    {
        stripped.push((raw[i].0.clone(), trim_char(raw[i].1.as_str(), '"')));
    }
    assert(pair_views(stripped@) =~= pair_views(raw@).map_values(
        |p: (Seq<char>, Seq<char>)| (p.0, trim_char_seq(p.1, '"')),
    ));
    let labels = sort_pairs(&stripped);
    let ghost lv = pair_views(labels@);
    let mut alts: Vec<String> = Vec::new();
    for i in 0..labels.len()
        invariant
            lv == pair_views(labels@),
            alts.len() == i,
            forall|j: int| 0 <= j < i ==> #[trigger] alts@[j]@ == quote(lv[j].1),
    {
        alts.push(quoted(labels[i].1.as_str()));
    }
    assert(string_views(alts@) =~= lv.map_values(|p: (Seq<char>, Seq<char>)| quote(p.1)));
    let mut r = owned("output = ");
    let j = join_strings(&alts, " | ");
    append(&mut r, j.as_str());
    append(&mut r, " ;");
    r
}

/// The decoding constraint of a node; none for external and reject kinds,
/// which have no decoding.
pub fn build_constraint(kind: Kind, slots: &KeyedMap<SlotData>) -> (res: Option<Constraint>)
    ensures
        match res {
            Some(c) => constraint_of(kind, slots.deep()) == Some(c@),
            None => constraint_of(kind, slots.deep()) is None,
        },
{
    let entry = spec(kind);
    if !entry.has_decoding() {
        return None;
    }
    let definition = match entry.output_ebnf {
        Some(OutputEbnf::Literal(s)) => owned(s),
        Some(OutputEbnf::NodeGrammar) => node_grammar_ebnf(),
        Some(OutputEbnf::Dynamic) => dynamic_ebnf(slots),
        None => {
            return None;
        },
    };
    Some(Constraint { definition, stop: entry.stop_tokens })
}

// ---------------------------------------------------------------------
// Degenerate grammars
// ---------------------------------------------------------------------

/// A choice among quoted literals that are all the literal `x`:
/// `"x"`, `"x" | "x"`, and so on.
pub open spec fn repeats_literal(s: Seq<char>, x: Seq<char>) -> bool
    decreases s.len(),
{
    if s == quote(x) {
        true
    } else if is_prefix(quote(x) + seq![' ', '|', ' '], s) {
        repeats_literal(s.skip(quote(x).len() as int + 3), x)
    } else {
        false
    }
}

/// The body of a grammar `output = <body> ;`.
pub open spec fn grammar_body(def: Seq<char>) -> Option<Seq<char>> {
    if def.len() >= 11 && is_prefix("output = "@, def) && is_suffix(" ;"@, def) {
        Some(def.subrange(9, def.len() - 2))
    } else {
        None
    }
}

/// The one string a grammar allows when its body is a choice among quoted
/// literals (without quotes inside) that are all the same string.
pub open spec fn singleton_of(def: Seq<char>) -> Option<Seq<char>> {
    match grammar_body(def) {
        Some(body) => if has_repeated_literal(body) {
            Some(repeated_literal(body))
        } else {
            None
        },
        None => None,
    }
}

/// `body` repeats one literal without quotes inside.
pub open spec fn has_repeated_literal(body: Seq<char>) -> bool {
    exists|x: Seq<char>| !x.contains('"') && #[trigger] repeats_literal(body, x)
}

/// The literal `body` repeats (meaningful when it repeats one).
pub open spec fn repeated_literal(body: Seq<char>) -> Seq<char> {
    choose|x: Seq<char>| !x.contains('"') && #[trigger] repeats_literal(body, x)
}

proof fn lemma_repeats_prefix(s: Seq<char>, x: Seq<char>)
    requires
        repeats_literal(s, x),
    ensures
        is_prefix(quote(x), s),
{
    if s == quote(x) {
        assert(s.take(s.len() as int) =~= s);
    } else {
        assert(s.take(quote(x).len() as int) =~= s.take(quote(x).len() as int + 3).take(quote(x).len() as int));
        assert((quote(x) + seq![' ', '|', ' ']).take(quote(x).len() as int) =~= quote(x));
        assert(s.take(quote(x).len() as int + 3) == quote(x) + seq![' ', '|', ' ']);
    }
}

/// In a choice of literals without quotes inside, the first literal ends
/// at the first quote after the opening one.
proof fn lemma_repeats_first_quote(s: Seq<char>, x: Seq<char>)
    requires
        repeats_literal(s, x),
        !x.contains('"'),
    ensures
        s.len() >= x.len() + 2,
        s[0] == '"',
        s[x.len() as int + 1] == '"',
        s.subrange(1, x.len() as int + 1) == x,
        forall|i: int| 1 <= i < x.len() as int + 1 ==> s[i] != '"',
{
    lemma_repeats_prefix(s, x);
    let q = quote(x);
    assert(s.take(q.len() as int) == q);
    assert(s[0] == s.take(q.len() as int)[0]);
    assert(s[x.len() as int + 1] == s.take(q.len() as int)[x.len() as int + 1]);
    assert forall|i: int| 1 <= i < x.len() as int + 1 implies s[i] != '"' by {
        assert(s[i] == s.take(q.len() as int)[i]);
        assert(q[i] == x[i - 1]);
        assert(x.contains(x[i - 1]));
    }
    assert(s.subrange(1, x.len() as int + 1) =~= x) by {
        assert forall|i: int| 0 <= i < x.len() implies s.subrange(1, x.len() as int + 1)[i] == x[i] by {
            assert(s[i + 1] == s.take(q.len() as int)[i + 1]);
        }
    }
}

proof fn lemma_repeats_unique(s: Seq<char>, x1: Seq<char>, x2: Seq<char>)
    requires
        repeats_literal(s, x1),
        repeats_literal(s, x2),
        !x1.contains('"'),
        !x2.contains('"'),
    ensures
        x1 == x2,
{
    lemma_repeats_first_quote(s, x1);
    lemma_repeats_first_quote(s, x2);
    if x1.len() < x2.len() {
        assert(s[x1.len() as int + 1] != '"');
    } else if x2.len() < x1.len() {
        assert(s[x2.len() as int + 1] != '"');
    }
}

/// Whether the characters `lo..hi` of `v` are `"x" | ... | "x"`, where `x`
/// is the text `lo+1..j`, the first quote after `lo` being at `j`.
fn repeats_from(v: &Vec<char>, lo: usize, hi: usize, x: &String) -> (res: bool)
    requires
        lo <= hi <= v.len(),
    ensures
        res == repeats_literal(v@.subrange(lo as int, hi as int), x@),
{
    let mut lit = owned("\"");
    append(&mut lit, x.as_str());
    append(&mut lit, "\"");
    let mut sep = lit.clone();
    append(&mut sep, " | ");
    proof {
        reveal_strlit("\"");
        reveal_strlit(" | ");
        assert(lit@ =~= quote(x@));
        assert(sep@ =~= quote(x@) + seq![' ', '|', ' ']);
    }
    let ll = lit.as_str().unicode_len();
    let sl = sep.as_str().unicode_len();
    let mut pos = lo;
    let ghost body = v@.subrange(lo as int, hi as int);
    assert(v@.subrange(pos as int, hi as int) == body);
    loop
        invariant
            lo <= pos <= hi <= v.len(),
            lit@ == quote(x@),
            sep@ == quote(x@) + seq![' ', '|', ' '],
            ll == lit@.len(),
            sl == sep@.len(),
            repeats_literal(body, x@) == repeats_literal(v@.subrange(pos as int, hi as int), x@),
            body == v@.subrange(lo as int, hi as int),
        decreases hi - pos,
    {
        let ghost t = v@.subrange(pos as int, hi as int);
        if hi - pos == ll && starts_with_at(v, pos, lit.as_str()) {
            proof {
                assert(t =~= v@.skip(pos as int).take(ll as int));
            }
            return true;
        }
        proof {
            if t == lit@ {
                assert(v@.skip(pos as int).take(ll as int) =~= t);
            }
        }
        if sl <= hi - pos && starts_with_at(v, pos, sep.as_str()) {
            proof {
                assert(t.take(sl as int) =~= v@.skip(pos as int).take(sl as int));
                assert(t.len() != lit@.len() || t != lit@);
                assert(t.skip(sl as int) =~= v@.subrange(pos + sl, hi as int));
            }
            pos = pos + sl;
        } else {
            proof {
                if sl <= hi - pos && is_prefix(sep@, t) {
                    assert(t.take(sl as int) =~= v@.skip(pos as int).take(sl as int));
                }
            }
            return false;
        }
    }
}

/// `s` ends with `p`.
fn ends_with(s: &str, p: &str) -> (res: bool)
    ensures
        res == is_suffix(p@, s@),
{
    let v = to_chars(s);
    let q = to_chars(p);
    if q.len() > v.len() {
        return false;
    }
    let r = starts_with_at(&v, v.len() - q.len(), p);
    proof {
        assert(v@.skip(v.len() - q.len()).take(q.len() as int) =~= v@.skip(v.len() - q.len()));
    }
    r
}

/// The one output the node's grammar allows, when its language is a
/// single string; otherwise none.
pub fn singleton_output(kind: Kind, slots: &KeyedMap<SlotData>) -> (res: Option<String>)
    ensures
        match res {
            Some(s) => constraint_of(kind, slots.deep()) is Some && singleton_of(
                constraint_of(kind, slots.deep())->Some_0.definition,
            ) == Some(s@),
            None => constraint_of(kind, slots.deep()) is None || singleton_of(
                constraint_of(kind, slots.deep())->Some_0.definition,
            ) is None,
        },
{
    let c = match build_constraint(kind, slots) {
        Some(c) => c,
        None => return None,
    };
    let def = c.definition.as_str();
    let v = to_chars(def);
    if v.len() < 11 || !starts_with(def, "output = ") || !ends_with(def, " ;") {
        return None;
    }
    let lo: usize = 9;
    let hi: usize = v.len() - 2;
    let ghost body = v@.subrange(9, v.len() - 2);
    proof {
        reveal_strlit("output = ");
        reveal_strlit(" ;");
        assert(grammar_body(def@) == Some(body));
    }
    if hi - lo < 2 || v[lo] != '"' {
        proof {
            if has_repeated_literal(body) {
                let x = repeated_literal(body);
                lemma_repeats_first_quote(body, x);
                assert(body[0] == v@[9]);
            }
        }
        return None;
    }
    let mut j: usize = lo + 1;
    while j < hi && v[j] != '"'
        invariant
            lo + 1 <= j <= hi <= v.len(),
            forall|i: int| lo + 1 <= i < j ==> v@[i] != '"',
        decreases hi - j,
    {
        j = j + 1;
    }
    if j == hi {
        proof {
            if has_repeated_literal(body) {
                let x = repeated_literal(body);
                lemma_repeats_first_quote(body, x);
                assert(body[x.len() as int + 1] == v@[9 + x.len() as int + 1]);
            }
        }
        return None;
    }
    let x = chars_to_string(&v, lo + 1, j);
    proof {
        assert forall|i: int| 0 <= i < x@.len() implies x@[i] != '"' by {
            assert(x@[i] == v@[lo + 1 + i]);
        }
    }
    if repeats_from(&v, lo, hi, &x) {
        proof {
            assert(!x@.contains('"') && repeats_literal(body, x@));
            assert(has_repeated_literal(body));
            let y = repeated_literal(body);
            lemma_repeats_unique(body, x@, y);
            assert(singleton_of(def@) == Some(x@));
            assert(c@.definition == def@);
        }
        Some(x)
    } else {
        proof {
            if has_repeated_literal(body) {
                let y = repeated_literal(body);
                lemma_repeats_first_quote(body, y);
                assert(body[y.len() as int + 1] == v@[9 + y.len() as int + 1]);
                if j < 9 + y.len() as int + 1 {
                    assert(body[j - 9] == v@[j as int]);
                }
                assert(j == 9 + y.len() as int + 1);
                assert(x@ =~= y) by {
                    assert forall|i: int| 0 <= i < y.len() implies x@[i] == y[i] by {
                        assert(body.subrange(1, y.len() as int + 1)[i] == body[i + 1]);
                        assert(body[i + 1] == v@[9 + i + 1]);
                    }
                }
            }
        }
        None
    }
}

// ---------------------------------------------------------------------
// Surface syntax
// ---------------------------------------------------------------------

/// `NODE <id>: <KIND> [<SUBTYPE>]`.
pub open spec fn header_line(node_id: Seq<char>, kind: Kind, subtype: Subtype) -> Seq<char> {
    "NODE "@ + node_id + ": "@ + kind_name(kind) + " ["@ + subtype_name(subtype) + "]"@
}

/// One slot line of the surface syntax: `  <KEYWORD> <value>`, strings in
/// quotes, argument lists as `name=value, ...`.
pub open spec fn surface_line(keyword: Seq<char>, value: SlotDataModel) -> Seq<char> {
    "  "@ + keyword + " "@ + surface_value_of(value)
}

/// `name=value` for each argument.
pub open spec fn arg_texts(p: Seq<(Seq<char>, Seq<char>)>) -> Seq<Seq<char>> {
    p.map_values(|a: (Seq<char>, Seq<char>)| a.0 + "="@ + a.1)
}

pub open spec fn surface_value_of(value: SlotDataModel) -> Seq<char> {
    match value {
        SlotDataModel::Str(v) => quote(v),
        SlotDataModel::Ident(v) => v,
        SlotDataModel::Cond(f, o, v) => f + " "@ + o + " "@ + v,
        SlotDataModel::Args(p) => join(arg_texts(p), ", "@),
    }
}

/// A node in the surface syntax of Luck: header, one line per slot in
/// registry order, `END`, separated by newlines.
pub open spec fn surface_form(kind: Kind, subtype: Subtype, node_id: Seq<char>, slots: Map<Seq<char>, SlotDataModel>) -> Seq<char> {
    join(surface_lines(kind, subtype, node_id, slots), "\n"@)
}

/// The lines of a node in the surface syntax.
pub open spec fn surface_lines(kind: Kind, subtype: Subtype, node_id: Seq<char>, slots: Map<Seq<char>, SlotDataModel>) -> Seq<
    Seq<char>,
> {
    seq![header_line(node_id, kind, subtype)] + kind_slots(kind).map_values(
        |s: SlotModel| surface_line(s.keyword, slots[s.name]),
    ) + seq!["END"@]
}

fn surface_value(value: &SlotData) -> (res: String)
    ensures
        res@ == surface_value_of(value@),
{
    match value {
        SlotData::Str(v) => quoted(v.as_str()),
        SlotData::Ident(v) => v.clone(),
        SlotData::Cond(f, o, v) => {
            let mut r = f.clone();
            append(&mut r, " ");
            append(&mut r, o.as_str());
            append(&mut r, " ");
            append(&mut r, v.as_str());
            r
        },
        SlotData::Args(pairs) => {
            let ghost pv = pair_views(pairs@);
            let mut parts: Vec<String> = Vec::new();
            for i in 0..pairs.len()
                invariant
                    pv == pair_views(pairs@),
                    parts.len() == i,
                    forall|j: int| 0 <= j < i ==> #[trigger] parts@[j]@ == pv[j].0 + "="@ + pv[j].1,
            {
                let mut t = pairs[i].0.clone();
                append(&mut t, "=");
                append(&mut t, pairs[i].1.as_str());
                parts.push(t);
            }
            assert(string_views(parts@) =~= arg_texts(pv));
            join_strings(&parts, ", ")
        },
    }
}

/// The node in the surface syntax of Luck (not the internal canonical
/// form): what a model is shown.
pub fn node_surface_form(kind: Kind, subtype: Subtype, node_id: &str, slots: &KeyedMap<SlotData>) -> (res: String)
    requires
        slots_filled(kind, slots.deep()),
    ensures
        res@ == surface_form(kind, subtype, node_id@, slots.deep()),
{
    let entry = spec(kind);
    let ghost sm = slots.deep();
    let ghost mid = kind_slots(kind).map_values(|s: SlotModel| surface_line(s.keyword, sm[s.name]));
    let mut lines: Vec<String> = Vec::new();
    let mut h = owned("NODE ");
    append(&mut h, node_id);
    append(&mut h, ": ");
    append(&mut h, kind.as_str());
    append(&mut h, " [");
    append(&mut h, subtype.as_str());
    append(&mut h, "]");
    lines.push(h);
    let ghost head = seq![header_line(node_id@, kind, subtype)];
    assert(string_views(lines@) =~= head + mid.take(0));
    for i in 0..entry.slots.len()
        invariant
            entry@ == kind_spec(kind),
            sm == slots.deep(),
            slots_filled(kind, sm),
            mid == kind_slots(kind).map_values(|s: SlotModel| surface_line(s.keyword, sm[s.name])),
            string_views(lines@) == head + mid.take(i as int),
    {
        let slot = &entry.slots[i];
        proof {
            assert(entry@.slots[i as int] == slot@);
            assert(sm.dom().contains(kind_slots(kind)[i as int].name));
        }
        let mut line = owned("  ");
        append(&mut line, slot.keyword);
        append(&mut line, " ");
        match slots.get(slot.name) {
            Some(value) => {
                let v = surface_value(value);
                append(&mut line, v.as_str());
            },
            None => {},
        }
        let ghost before = string_views(lines@);
        lines.push(line);
        proof {
            assert(string_views(lines@) =~= before.push(mid[i as int]));
            assert(mid.take(i + 1) =~= mid.take(i as int).push(mid[i as int]));
        }
    }
    lines.push(owned("END"));
    proof {
        assert(mid.take(entry.slots.len() as int) =~= mid);
        assert(string_views(lines@) =~= head + mid + seq!["END"@]);
    }
    join_strings(&lines, "\n")
}

/// The placeholder value of a slot in a synthesized example.
pub open spec fn placeholder(v: SlotValueModel) -> Seq<char> {
    match v {
        SlotValueModel::Str => "\"example value\""@,
        SlotValueModel::Ident => "out"@,
        SlotValueModel::Cond => "field = \"value\""@,
        SlotValueModel::Args => "name=\"value\""@,
        SlotValueModel::Enum(opts) => opts[0],
    }
}

/// Every enumerated slot of the registry has at least one option.
pub proof fn lemma_enum_options_nonempty(k: Kind, i: int)
    requires
        0 <= i < kind_slots(k).len(),
    ensures
        kind_slots(k)[i].value matches SlotValueModel::Enum(o) ==> o.len() > 0,
{
    match k {
        Kind::RejectMark => {
            assert(crate::registry::reject_reasons().len() == 3);
        },
        _ => {},
    }
}

/// A minimal node of `kind`, synthesized from the registry: header with the
/// kind's registered subtype, a placeholder per slot, `END`.
pub open spec fn example_source(kind: Kind, node_id: Seq<char>) -> Seq<char> {
    join(
        seq![header_line(node_id, kind, crate::registry::kind_subtype(kind))] + kind_slots(kind).map_values(
            |s: SlotModel| "  "@ + s.keyword + " "@ + placeholder(s.value),
        ) + seq!["END"@],
        "\n"@,
    )
}

/// A minimal valid Luck source for one node of `kind`, derived from the
/// registry's slots (the inverse of the body parser).
pub fn example_node_source(kind: Kind, node_id: &str) -> (res: String)
    ensures
        res@ == example_source(kind, node_id@),
{
    let entry = spec(kind);
    let ghost mid = kind_slots(kind).map_values(|s: SlotModel| "  "@ + s.keyword + " "@ + placeholder(s.value));
    let mut lines: Vec<String> = Vec::new();
    let mut h = owned("NODE ");
    append(&mut h, node_id);
    append(&mut h, ": ");
    append(&mut h, kind.as_str());
    append(&mut h, " [");
    append(&mut h, entry.subtype.as_str());
    append(&mut h, "]");
    lines.push(h);
    let ghost head = seq![header_line(node_id@, kind, crate::registry::kind_subtype(kind))];
    assert(string_views(lines@) =~= head + mid.take(0));
    for i in 0..entry.slots.len()
        invariant
            entry@ == kind_spec(kind),
            mid == kind_slots(kind).map_values(|s: SlotModel| "  "@ + s.keyword + " "@ + placeholder(s.value)),
            string_views(lines@) == head + mid.take(i as int),
    {
        let slot = &entry.slots[i];
        proof {
            assert(entry@.slots[i as int] == slot@);
        }
        let mut line = owned("  ");
        append(&mut line, slot.keyword);
        append(&mut line, " ");
        match &slot.value {
            SlotValue::String => append(&mut line, "\"example value\""),
            SlotValue::Ident => append(&mut line, "out"),
            SlotValue::Condition => append(&mut line, "field = \"value\""),
            SlotValue::Args => append(&mut line, "name=\"value\""),
            SlotValue::Enum(opts) => {
                proof {
                    lemma_enum_options_nonempty(kind, i as int);
                    assert(slot@.value == kind_slots(kind)[i as int].value);
                    assert(opts@.map_values(|o: &'static str| o@).len() > 0);
                }
                append(&mut line, opts[0]);
            },
        }
        let ghost before = string_views(lines@);
        lines.push(line);
        proof {
            assert(string_views(lines@) =~= before.push(mid[i as int]));
            assert(mid.take(i + 1) =~= mid.take(i as int).push(mid[i as int]));
        }
    }
    lines.push(owned("END"));
    proof {
        assert(mid.take(entry.slots.len() as int) =~= mid);
        assert(string_views(lines@) =~= head + mid + seq!["END"@]);
    }
    join_strings(&lines, "\n")
}

// ---------------------------------------------------------------------
// Checking a model's output
// ---------------------------------------------------------------------

/// How a parse error is displayed: `[парсер] <message> (<line>:<col>)`.
pub open spec fn parse_error_text(e: ParseErrorModel) -> Seq<char> {
    "[парсер] "@ + e.message + " ("@ + decimal(e.line as nat) + ":"@ + decimal(e.col as nat) + ")"@
}

/// The text between `output = ` and ` ;` of a grammar that is a closed set
/// of quoted alternatives (and not the `RESULT` prefix form).
pub open spec fn closed_set_body(ebnf: Seq<char>) -> Option<Seq<char>> {
    if is_prefix("output = "@, ebnf) {
        let rest = ebnf.skip(9);
        if is_suffix(" ;"@, rest) {
            let body = rest.take(rest.len() - 2);
            if body.len() > 0 && body[0] == '"' && !is_prefix("\"RESULT\""@, body) {
                Some(body)
            } else {
                None
            }
        } else {
            None
        }
    } else {
        None
    }
}

/// The alternatives of a closed set, without their quotes.
pub open spec fn alternatives(body: Seq<char>) -> Seq<Seq<char>> {
    split_seq(body, " | "@).map_values(|a: Seq<char>| trim_char_seq(a, '"'))
}

/// Whether `text` is an output the node's grammar accepts, and why not.
/// The text is read without surrounding whitespace. An empty grammar wants
/// nothing; a node grammar wants at least one node declaration; a closed
/// set wants one of its alternatives; the `RESULT` form wants the prefix
/// `RESULT:` and a nonblank rest; free text must not be blank.
pub open spec fn check_output(kind: Kind, slots: Map<Seq<char>, SlotDataModel>, text: Seq<char>) -> Result<(), Seq<char>> {
    match constraint_of(kind, slots) {
        None => Ok(()),
        Some(c) => {
            let value = trim_seq(text);
            let ebnf = c.definition;
            if ebnf == "output = \"\" ;"@ {
                if value.len() == 0 {
                    Ok(())
                } else {
                    Err("ожидался пустой вывод"@)
                }
            } else if is_prefix("output = { node_decl }"@, ebnf) {
                match fragment_parse_spec(text) {
                    Err(e) => Err("вывод не разбирается как узлы Luck: "@ + parse_error_text(e)),
                    Ok(nodes) => if nodes.len() == 0 {
                        Err("вывод не содержит ни одного узла"@)
                    } else {
                        Ok(())
                    },
                }
            } else if closed_set_body(ebnf) is Some {
                let allowed = alternatives(closed_set_body(ebnf)->Some_0);
                if allowed.contains(value) {
                    Ok(())
                } else {
                    Err("ожидалось одно из "@ + debug_list(allowed))
                }
            } else if is_prefix("output = \"RESULT\""@, ebnf) {
                if !is_prefix("RESULT:"@, value) {
                    Err("ожидался префикс 'RESULT:'"@)
                } else if trim_seq(value.skip(7)).len() == 0 {
                    Err("пустое тело после префикса"@)
                } else {
                    Ok(())
                }
            } else if value.len() == 0 {
                Err("ожидался непустой текст"@)
            } else {
                Ok(())
            }
        },
    }
}

fn closed_set_exec(ebnf: &str) -> (res: Option<String>)
    ensures
        match res {
            Some(b) => closed_set_body(ebnf@) == Some(b@),
            None => closed_set_body(ebnf@) is None,
        },
{
    proof {
        reveal_strlit("output = ");
        reveal_strlit(" ;");
    }
    if !starts_with(ebnf, "output = ") {
        return None;
    }
    let v = to_chars(ebnf);
    let rest = chars_to_string(&v, 9, v.len());
    assert(rest@ =~= ebnf@.skip(9));
    if !ends_with(rest.as_str(), " ;") {
        return None;
    }
    let w = to_chars(rest.as_str());
    let body = chars_to_string(&w, 0, w.len() - 2);
    assert(body@ =~= rest@.take(rest@.len() - 2));
    let b = to_chars(body.as_str());
    if b.len() > 0 && b[0] == '"' && !starts_with(body.as_str(), "\"RESULT\"") {
        Some(body)
    } else {
        None
    }
}

fn contains_string(v: &Vec<String>, s: &str) -> (res: bool)
    ensures
        res == string_views(v@).contains(s@),
{
    let mut i: usize = 0;
    while i < v.len()
        invariant
            i <= v.len(),
            forall|j: int| 0 <= j < i ==> v@[j]@ != s@,
        decreases v.len() - i,
    {
        if str_eq(v[i].as_str(), s) {
            assert(string_views(v@)[i as int] == s@);
            return true;
        }
        i += 1;
    }
    proof {
        if string_views(v@).contains(s@) {
            let j = string_views(v@).index_of(s@);
            assert(v@[j]@ == s@);
        }
    }
    false
}

pub(crate) fn debug_strings(v: &Vec<String>) -> (res: String)
    ensures
        res@ == debug_list(string_views(v@)),
{
    let mut parts: Vec<String> = Vec::new();
    for i in 0..v.len()
        invariant
            parts.len() == i,
            forall|j: int| 0 <= j < i ==> #[trigger] parts@[j]@ == crate::text::str_debug(v@[j]@),
    {
        parts.push(str_debug_string(v[i].as_str()));
    }
    assert(string_views(parts@) =~= string_views(v@).map_values(|o: Seq<char>| crate::text::str_debug(o)));
    let mut r = owned("[");
    let inner = join_strings(&parts, ", ");
    append(&mut r, inner.as_str());
    append(&mut r, "]");
    r
}

/// Checks a model's output against the node's grammar: `Ok` when it is
/// valid, otherwise the reason.
pub fn validate_output(kind: Kind, slots: &KeyedMap<SlotData>, text: &str) -> (res: Result<(), String>)
    requires
        text@.len() < usize::MAX,
    ensures
        match res {
            Ok(()) => check_output(kind, slots.deep(), text@) == Ok::<(), Seq<char>>(()),
            Err(m) => check_output(kind, slots.deep(), text@) == Err::<(), Seq<char>>(m@),
        },
{
    let constraint = match build_constraint(kind, slots) {
        Some(c) => c,
        None => return Ok(()),
    };
    let value = trim(text);
    let ebnf = constraint.definition.as_str();
    if str_eq(ebnf, "output = \"\" ;") {
        if value.as_str().is_empty() {
            return Ok(());
        }
        return Err(owned("ожидался пустой вывод"));
    }
    if starts_with(ebnf, "output = { node_decl }") {
        return match parse_fragment(text) {
            Err(e) => {
                let mut m = owned("вывод не разбирается как узлы Luck: ");
                let d = e.describe();
                append(&mut m, d.as_str());
                Err(m)
            },
            Ok(nodes) => if nodes.len() == 0 {
                Err(owned("вывод не содержит ни одного узла"))
            } else {
                Ok(())
            },
        };
    }
    match closed_set_exec(ebnf) {
        Some(body) => {
            proof {
                reveal_strlit(" | ");
            }
            let pieces = split_str(body.as_str(), " | ");
            let mut allowed: Vec<String> = Vec::new();
            for i in 0..pieces.len()
                invariant
                    allowed.len() == i,
                    forall|j: int| 0 <= j < i ==> #[trigger] allowed@[j]@ == trim_char_seq(pieces@[j]@, '"'),
            {
                allowed.push(trim_char(pieces[i].as_str(), '"'));
            }
            assert(string_views(allowed@) =~= alternatives(body@));
            if contains_string(&allowed, value.as_str()) {
                return Ok(());
            }
            let mut m = owned("ожидалось одно из ");
            let d = debug_strings(&allowed);
            append(&mut m, d.as_str());
            return Err(m);
        },
        None => {},
    }
    if starts_with(ebnf, "output = \"RESULT\"") {
        proof {
            reveal_strlit("RESULT:");
        }
        if !starts_with(value.as_str(), "RESULT:") {
            return Err(owned("ожидался префикс 'RESULT:'"));
        }
        let v = to_chars(value.as_str());
        let tail = chars_to_string(&v, 7, v.len());
        assert(tail@ =~= value@.skip(7));
        if is_blank(tail.as_str()) {
            return Err(owned("пустое тело после префикса"));
        }
        return Ok(());
    }
    if value.as_str().is_empty() {
        return Err(owned("ожидался непустой текст"));
    }
    Ok(())
}

} // verus!
