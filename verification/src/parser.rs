//! The parser: builds an intent graph from the token stream. Nodes carry
//! their identity: the canonical form (`SUBTYPE|KIND|slot=value|...`, the
//! slots in registry order, normalized slots sorted) and the cache key, the
//! first 16 hexadecimal digits of the SHA-256 digest of the canonical form.
//! The cache key does not depend on the branch a node was produced in.

use vstd::prelude::*;
use crate::digest::{digest_hex_prefix, digest_prefix};
use crate::keyed_map::{KeyedMap, lemma_deep_insert};
use crate::lexer::{lex_spec, tokenize, LexErrorModel, LuckLexError, Token, TokenModel, TokenType, token_views};
use crate::registry::{
    kind_from_name, kind_name, kind_normalized_slots, kind_slots, kind_spec, kind_subtype, kind_subtype_error,
    quote, spec, str_views, subtype_from_name, subtype_name, validate_kind_subtype, Kind, Slot, SlotModel,
    SlotValue, SlotValueModel, Subtype,
};
use crate::text::{
    append, join, join_strings, lemma_seq_lt_irreflexive, lemma_seq_lt_transitive, lemma_seq_lt_trichotomy, owned, seq_lt,
    str_debug, str_debug_string, str_eq, str_lt, string_views,
};

verus! {

// ---------------------------------------------------------------------
// Slot values
// ---------------------------------------------------------------------

#[derive(Debug, Clone, PartialEq)]
pub enum SlotData {
    Str(String),
    Ident(String),
    /// (field, operator, value as written: strings keep their quotes)
    Cond(String, String, String),
    Args(Vec<(String, String)>),
}

pub enum SlotDataModel {
    Str(Seq<char>),
    Ident(Seq<char>),
    Cond(Seq<char>, Seq<char>, Seq<char>),
    Args(Seq<(Seq<char>, Seq<char>)>),
}

pub open spec fn pair_views(v: Seq<(String, String)>) -> Seq<(Seq<char>, Seq<char>)> {
    v.map_values(|p: (String, String)| (p.0@, p.1@))
}

impl View for SlotData {
    type V = SlotDataModel;

    open spec fn view(&self) -> SlotDataModel {
        match self {
            SlotData::Str(v) => SlotDataModel::Str(v@),
            SlotData::Ident(v) => SlotDataModel::Ident(v@),
            SlotData::Cond(f, o, v) => SlotDataModel::Cond(f@, o@, v@),
            SlotData::Args(p) => SlotDataModel::Args(pair_views(p@)),
        }
    }
}

/// The position at which `x` enters the name-sorted `sorted`: after every
/// pair whose name is not greater than its own.
pub open spec fn insert_pos(sorted: Seq<(Seq<char>, Seq<char>)>, x: (Seq<char>, Seq<char>)) -> int
    decreases sorted.len(),
{
    if sorted.len() == 0 {
        0
    } else if seq_lt(x.0, sorted.last().0) {
        insert_pos(sorted.drop_last(), x)
    } else {
        sorted.len() as int
    }
}

/// The pairs sorted by name, pairs with equal names keeping their order
/// (a stable sort).
pub open spec fn sort_by_name(s: Seq<(Seq<char>, Seq<char>)>) -> Seq<(Seq<char>, Seq<char>)>
    decreases s.len(),
{
    if s.len() == 0 {
        s
    } else {
        let sorted = sort_by_name(s.drop_last());
        sorted.insert(insert_pos(sorted, s.last()), s.last())
    }
}

proof fn lemma_insert_pos_bounds(sorted: Seq<(Seq<char>, Seq<char>)>, x: (Seq<char>, Seq<char>))
    ensures
        0 <= insert_pos(sorted, x) <= sorted.len(),
    decreases sorted.len(),
{
    if sorted.len() > 0 && seq_lt(x.0, sorted.last().0) {
        lemma_insert_pos_bounds(sorted.drop_last(), x);
    }
}

proof fn lemma_sort_len(s: Seq<(Seq<char>, Seq<char>)>)
    ensures
        sort_by_name(s).len() == s.len(),
    decreases s.len(),
{
    if s.len() > 0 {
        lemma_sort_len(s.drop_last());
        lemma_insert_pos_bounds(sort_by_name(s.drop_last()), s.last());
    }
}

/// No two pairs share a name.
pub open spec fn names_distinct(p: Seq<(Seq<char>, Seq<char>)>) -> bool {
    forall|i: int, j: int| 0 <= i < j < p.len() ==> #[trigger] p[i].0 != #[trigger] p[j].0
}

/// Pairs in strictly ascending order of names.
pub open spec fn names_ascending(p: Seq<(Seq<char>, Seq<char>)>) -> bool {
    forall|i: int, j: int| 0 <= i < j < p.len() ==> seq_lt(#[trigger] p[i].0, #[trigger] p[j].0)
}

/// Two argument lists that hold the same arguments, each named once: the
/// same list written in another order.
pub open spec fn same_args(p: Seq<(Seq<char>, Seq<char>)>, q: Seq<(Seq<char>, Seq<char>)>) -> bool {
    &&& names_distinct(p)
    &&& names_distinct(q)
    &&& forall|x: (Seq<char>, Seq<char>)| #![trigger p.contains(x)] #![trigger q.contains(x)] p.contains(x) <==> q.contains(x)
}

/// Where `insert_pos` puts `x` in a list ascending by name whose names all
/// differ from that of `x`: after the smaller names, before the greater.
proof fn lemma_insert_pos_sorted(sorted: Seq<(Seq<char>, Seq<char>)>, x: (Seq<char>, Seq<char>))
    requires
        names_ascending(sorted),
        forall|i: int| 0 <= i < sorted.len() ==> (#[trigger] sorted[i]).0 != x.0,
    ensures
        0 <= insert_pos(sorted, x) <= sorted.len(),
        forall|i: int| 0 <= i < insert_pos(sorted, x) ==> seq_lt((#[trigger] sorted[i]).0, x.0),
        forall|i: int| insert_pos(sorted, x) <= i < sorted.len() ==> seq_lt(x.0, (#[trigger] sorted[i]).0),
    decreases sorted.len(),
{
    if sorted.len() > 0 {
        let last = sorted.last();
        if seq_lt(x.0, last.0) {
            let d = sorted.drop_last();
            assert forall|i: int, j: int| 0 <= i < j < d.len() implies seq_lt(#[trigger] d[i].0, #[trigger] d[j].0) by {
                assert(d[i] == sorted[i] && d[j] == sorted[j]);
            }
            assert forall|i: int| 0 <= i < d.len() implies (#[trigger] d[i]).0 != x.0 by {
                assert(d[i] == sorted[i]);
            }
            lemma_insert_pos_sorted(d, x);
            assert forall|i: int| 0 <= i < insert_pos(sorted, x) implies seq_lt((#[trigger] sorted[i]).0, x.0) by {
                assert(d[i] == sorted[i]);
            }
            assert forall|i: int| insert_pos(sorted, x) <= i < sorted.len() implies seq_lt(x.0, (#[trigger] sorted[i]).0) by {
                if i < d.len() {
                    assert(d[i] == sorted[i]);
                }
            }
        } else {
            lemma_seq_lt_trichotomy(x.0, last.0);
            assert forall|i: int| 0 <= i < sorted.len() implies seq_lt((#[trigger] sorted[i]).0, x.0) by {
                if i < sorted.len() - 1 {
                    assert(seq_lt(sorted[i].0, sorted[sorted.len() - 1].0));
                    lemma_seq_lt_transitive(sorted[i].0, last.0, x.0);
                }
            }
        }
    }
}

/// Sorting a list whose names are distinct gives the same pairs in
/// strictly ascending order of names.
proof fn lemma_sort_by_name_ascending(p: Seq<(Seq<char>, Seq<char>)>)
    requires
        names_distinct(p),
    ensures
        names_ascending(sort_by_name(p)),
        forall|x: (Seq<char>, Seq<char>)| #[trigger] sort_by_name(p).contains(x) <==> p.contains(x),
    decreases p.len(),
{
    if p.len() > 0 {
        let d = p.drop_last();
        let x = p.last();
        assert forall|i: int, j: int| 0 <= i < j < d.len() implies #[trigger] d[i].0 != #[trigger] d[j].0 by {
            assert(d[i] == p[i] && d[j] == p[j]);
        }
        lemma_sort_by_name_ascending(d);
        let sorted = sort_by_name(d);
        assert forall|i: int| 0 <= i < sorted.len() implies (#[trigger] sorted[i]).0 != x.0 by {
            assert(sorted.contains(sorted[i]));
            assert(d.contains(sorted[i]));
            let k = d.index_of(sorted[i]);
            assert(p[k] == d[k]);
            assert(p[k].0 != p[p.len() - 1].0);
        }
        lemma_insert_pos_sorted(sorted, x);
        let pos = insert_pos(sorted, x);
        let r = sorted.insert(pos, x);
        assert(r == sort_by_name(p));
        assert forall|i: int, j: int| 0 <= i < j < r.len() implies seq_lt(#[trigger] r[i].0, #[trigger] r[j].0) by {
            if j < pos {
                assert(r[i] == sorted[i] && r[j] == sorted[j]);
            } else if j == pos {
                assert(r[i] == sorted[i]);
            } else if i < pos {
                assert(r[i] == sorted[i] && r[j] == sorted[j - 1]);
                lemma_seq_lt_transitive(sorted[i].0, x.0, sorted[j - 1].0);
            } else if i == pos {
                assert(r[j] == sorted[j - 1]);
            } else {
                assert(r[i] == sorted[i - 1] && r[j] == sorted[j - 1]);
            }
        }
        assert forall|y: (Seq<char>, Seq<char>)| #[trigger] r.contains(y) <==> p.contains(y) by {
            if r.contains(y) {
                let k = r.index_of(y);
                if k < pos {
                    assert(sorted[k] == y);
                    assert(sorted.contains(y));
                    let m = d.index_of(y);
                    assert(p[m] == y);
                } else if k > pos {
                    assert(sorted[k - 1] == y);
                    assert(sorted.contains(y));
                    let m = d.index_of(y);
                    assert(p[m] == y);
                } else {
                    assert(p[p.len() - 1] == y);
                }
            }
            if p.contains(y) {
                let k = p.index_of(y);
                if k == p.len() - 1 {
                    assert(r[pos] == y);
                } else {
                    assert(d[k] == y);
                    assert(sorted.contains(y));
                    let m = sorted.index_of(y);
                    if m < pos {
                        assert(r[m] == y);
                    } else {
                        assert(r[m + 1] == y);
                    }
                }
            }
        }
    }
}

/// Two lists in strictly ascending order of names with the same pairs are
/// equal.
proof fn lemma_ascending_unique(a: Seq<(Seq<char>, Seq<char>)>, b: Seq<(Seq<char>, Seq<char>)>)
    requires
        names_ascending(a),
        names_ascending(b),
        forall|x: (Seq<char>, Seq<char>)| #![trigger a.contains(x)] #![trigger b.contains(x)] a.contains(x) <==> b.contains(x),
    ensures
        a == b,
    decreases a.len(),
{
    if a.len() == 0 {
        if b.len() > 0 {
            assert(b.contains(b[0]));
        }
        assert(b =~= a);
    } else if b.len() == 0 {
        assert(a.contains(a[0]));
    } else {
        assert(a.contains(a[0]));
        assert(b.contains(b[0]));
        let j = b.index_of(a[0]);
        let k = a.index_of(b[0]);
        lemma_seq_lt_irreflexive(a[0].0);
        lemma_seq_lt_irreflexive(b[0].0);
        if j > 0 {
            assert(seq_lt(b[0].0, b[j].0));
            if k > 0 {
                assert(seq_lt(a[0].0, a[k].0));
                lemma_seq_lt_trichotomy(a[0].0, b[0].0);
            } else {
                assert(a[0] == b[0]);
            }
        }
        assert(a[0] == b[0]);
        let a1 = a.drop_first();
        let b1 = b.drop_first();
        assert forall|x: (Seq<char>, Seq<char>)| #![trigger a1.contains(x)] #![trigger b1.contains(x)] a1.contains(x) <==> b1.contains(x) by {
            if a1.contains(x) {
                let i = a1.index_of(x);
                assert(a[i + 1] == x);
                assert(seq_lt(a[0].0, x.0));
                assert(x != a[0]);
                assert(b.contains(x));
                let m = b.index_of(x);
                assert(m != 0);
                assert(b1[m - 1] == x);
            }
            if b1.contains(x) {
                let i = b1.index_of(x);
                assert(b[i + 1] == x);
                assert(seq_lt(b[0].0, x.0));
                assert(x != b[0]);
                assert(a.contains(x));
                let m = a.index_of(x);
                assert(m != 0);
                assert(a1[m - 1] == x);
            }
        }
        assert forall|i: int, j: int| 0 <= i < j < a1.len() implies seq_lt(#[trigger] a1[i].0, #[trigger] a1[j].0) by {
            assert(a1[i] == a[i + 1] && a1[j] == a[j + 1]);
        }
        assert forall|i: int, j: int| 0 <= i < j < b1.len() implies seq_lt(#[trigger] b1[i].0, #[trigger] b1[j].0) by {
            assert(b1[i] == b[i + 1] && b1[j] == b[j + 1]);
        }
        lemma_ascending_unique(a1, b1);
        assert(a =~= seq![a[0]] + a1);
        assert(b =~= seq![b[0]] + b1);
    }
}

/// Sorting by name puts the same arguments, written in any order, in the
/// same order.
pub proof fn lemma_sort_by_name_order_free(p: Seq<(Seq<char>, Seq<char>)>, q: Seq<(Seq<char>, Seq<char>)>)
    requires
        same_args(p, q),
    ensures
        sort_by_name(p) == sort_by_name(q),
{
    lemma_sort_by_name_ascending(p);
    lemma_sort_by_name_ascending(q);
    lemma_ascending_unique(sort_by_name(p), sort_by_name(q));
}

/// `name=value`.
pub open spec fn arg_text(a: (Seq<char>, Seq<char>)) -> Seq<char> {
    a.0 + "="@ + a.1
}

/// The canonical text of one slot value; the pairs of a normalized
/// argument list are sorted by name first.
pub open spec fn slot_canonical(d: SlotDataModel, normalize: bool) -> Seq<char> {
    match d {
        SlotDataModel::Str(v) => v,
        SlotDataModel::Ident(v) => v,
        SlotDataModel::Cond(f, o, v) => "("@ + f + ","@ + o + ","@ + v + ")"@,
        SlotDataModel::Args(p) => join(
            (if normalize { sort_by_name(p) } else { p }).map_values(|a: (Seq<char>, Seq<char>)| arg_text(a)),
            ","@,
        ),
    }
}

fn clone_pairs(v: &Vec<(String, String)>) -> (res: Vec<(String, String)>)
    ensures
        pair_views(res@) == pair_views(v@),
{
    let mut res: Vec<(String, String)> = Vec::new();
    for i in 0..v.len()
        invariant
            res.len() == i,
            i <= v.len(),
            forall|j: int| 0 <= j < i ==> (#[trigger] res@[j]).0@ == v@[j].0@ && res@[j].1@ == v@[j].1@,
    {
        res.push((v[i].0.clone(), v[i].1.clone()));
    }
    assert(pair_views(res@) =~= pair_views(v@));
    res
}

/// The pairs stably sorted by name.
pub(crate) fn sort_pairs(v: &Vec<(String, String)>) -> (res: Vec<(String, String)>)
    ensures
        pair_views(res@) == sort_by_name(pair_views(v@)),
{
    let mut res: Vec<(String, String)> = Vec::new();
    for i in 0..v.len()
        invariant
            pair_views(res@) == sort_by_name(pair_views(v@).take(i as int)),
    {
        let ghost sorted = pair_views(res@);
        let ghost x = (v@[i as int].0@, v@[i as int].1@);
        let mut j = res.len();
        assert(sorted.take(j as int) =~= sorted);
        while j > 0 && str_lt(v[i].0.as_str(), res[j - 1].0.as_str())
            invariant
                i < v.len(),
                j <= res.len(),
                sorted == pair_views(res@),
                x == (v@[i as int].0@, v@[i as int].1@),
                insert_pos(sorted, x) == insert_pos(sorted.take(j as int), x),
            decreases j,
        {
            assert(sorted.take(j as int).drop_last() =~= sorted.take(j - 1));
            j -= 1;
        }
        proof {
            if j > 0 {
                assert(sorted.take(j as int).last() == sorted[j - 1]);
            }
            assert(insert_pos(sorted.take(j as int), x) == j);
            assert(pair_views(v@).take(i + 1).drop_last() =~= pair_views(v@).take(i as int));
        }
        res.insert(j, (v[i].0.clone(), v[i].1.clone()));
        proof {
            assert(pair_views(res@) =~= sorted.insert(j as int, x));
        }
    }
    assert(pair_views(v@).take(v.len() as int) =~= pair_views(v@));
    res
}

impl SlotData {
    /// A copy of the value.
    pub fn duplicate(&self) -> (res: SlotData)
        ensures
            res@ == self@,
    {
        match self {
            SlotData::Str(v) => SlotData::Str(v.clone()),
            SlotData::Ident(v) => SlotData::Ident(v.clone()),
            SlotData::Cond(f, o, v) => SlotData::Cond(f.clone(), o.clone(), v.clone()),
            SlotData::Args(p) => SlotData::Args(clone_pairs(p)),
        }
    }

    /// The canonical text of the value: determined by the value alone, and
    /// for a normalized argument list independent of the order the pairs
    /// were written in (they are sorted by name).
    fn canonical(&self, normalize: bool) -> (res: String)
        ensures
            res@ == slot_canonical(self@, normalize),
    {
        match self {
            SlotData::Str(v) => v.clone(),
            SlotData::Ident(v) => v.clone(),
            SlotData::Cond(f, o, v) => {
                let mut r = owned("(");
                append(&mut r, f.as_str());
                append(&mut r, ",");
                append(&mut r, o.as_str());
                append(&mut r, ",");
                append(&mut r, v.as_str());
                append(&mut r, ")");
                r
            },
            SlotData::Args(pairs) => {
                let ordered = if normalize {
                    sort_pairs(pairs)
                } else {
                    clone_pairs(pairs)
                };
                let ghost ov = pair_views(ordered@);
                let mut parts: Vec<String> = Vec::new();
                for i in 0..ordered.len()
                    invariant
                        ov == pair_views(ordered@),
                        parts.len() == i,
                        forall|j: int| 0 <= j < i ==> #[trigger] parts@[j]@ == arg_text(ov[j]),
                {
                    let mut t = ordered[i].0.clone();
                    append(&mut t, "=");
                    append(&mut t, ordered[i].1.as_str());
                    parts.push(t);
                }
                assert(string_views(parts@) =~= ov.map_values(|a: (Seq<char>, Seq<char>)| arg_text(a)));
                join_strings(&parts, ",")
            },
        }
    }
}

// ---------------------------------------------------------------------
// Nodes, edges, graphs
// ---------------------------------------------------------------------

#[derive(Debug)]
pub struct Node {
    pub node_id: String,
    pub subtype: Subtype,
    pub kind: Kind,
    pub slots: KeyedMap<SlotData>,
    pub branch_id: String,
    pub cache_key: String,
}

pub struct NodeModel {
    pub node_id: Seq<char>,
    pub subtype: Subtype,
    pub kind: Kind,
    pub slots: Map<Seq<char>, SlotDataModel>,
    pub branch_id: Seq<char>,
    pub cache_key: Seq<char>,
}

impl View for Node {
    type V = NodeModel;

    open spec fn view(&self) -> NodeModel {
        NodeModel {
            node_id: self.node_id@,
            subtype: self.subtype,
            kind: self.kind,
            slots: self.slots.deep(),
            branch_id: self.branch_id@,
            cache_key: self.cache_key@,
        }
    }
}

/// Every slot of `kind` has a value in `slots`.
pub open spec fn slots_filled(kind: Kind, slots: Map<Seq<char>, SlotDataModel>) -> bool {
    forall|j: int| 0 <= j < kind_slots(kind).len() ==> slots.dom().contains(#[trigger] kind_slots(kind)[j].name)
}

/// `name=<canonical value>` for each slot of the kind, in registry order.
pub open spec fn slot_parts(kind: Kind, slots: Map<Seq<char>, SlotDataModel>) -> Seq<Seq<char>> {
    kind_slots(kind).map_values(
        |s: SlotModel| s.name + "="@ + slot_canonical(slots[s.name], kind_normalized_slots(kind).contains(s.name)),
    )
}

/// The canonical form of a node: `SUBTYPE|KIND|name=value|...`.
pub open spec fn canonical_form_of(subtype: Subtype, kind: Kind, slots: Map<Seq<char>, SlotDataModel>) -> Seq<char> {
    join(seq![subtype_name(subtype), kind_name(kind)] + slot_parts(kind, slots), "|"@)
}

/// The cache key of a node: the first 16 hexadecimal digits of the
/// SHA-256 digest of its canonical form.
pub open spec fn cache_key_of(subtype: Subtype, kind: Kind, slots: Map<Seq<char>, SlotDataModel>) -> Seq<char> {
    digest_prefix(canonical_form_of(subtype, kind, slots), 16)
}

/// Slot values the canonical form cannot tell apart: equal, or, for a
/// slot the registry normalizes, the same arguments in another order.
pub open spec fn same_slot(kind: Kind, name: Seq<char>, a: SlotDataModel, b: SlotDataModel) -> bool {
    ||| a == b
    ||| kind_normalized_slots(kind).contains(name) && match (a, b) {
        (SlotDataModel::Args(p), SlotDataModel::Args(q)) => same_args(p, q),
        _ => false,
    }
}

/// The canonical form, and so the cache key, of a node does not depend on
/// the order in which the arguments of a normalized slot were written.
pub proof fn lemma_cache_key_ignores_arg_order(
    subtype: Subtype,
    kind: Kind,
    a: Map<Seq<char>, SlotDataModel>,
    b: Map<Seq<char>, SlotDataModel>,
)
    requires
        forall|j: int|
            0 <= j < kind_slots(kind).len() ==> same_slot(
                kind,
                (#[trigger] kind_slots(kind)[j]).name,
                a[kind_slots(kind)[j].name],
                b[kind_slots(kind)[j].name],
            ),
    ensures
        canonical_form_of(subtype, kind, a) == canonical_form_of(subtype, kind, b),
        cache_key_of(subtype, kind, a) == cache_key_of(subtype, kind, b),
{
    let ss = kind_slots(kind);
    assert forall|j: int| 0 <= j < ss.len() implies #[trigger] slot_parts(kind, a)[j] == slot_parts(kind, b)[j] by {
        let n = ss[j].name;
        let norm = kind_normalized_slots(kind).contains(n);
        assert(same_slot(kind, n, a[n], b[n]));
        if a[n] != b[n] {
            match (a[n], b[n]) {
                (SlotDataModel::Args(p), SlotDataModel::Args(q)) => {
                    lemma_sort_by_name_order_free(p, q);
                },
                _ => {},
            }
        }
    }
    assert(slot_parts(kind, a) =~= slot_parts(kind, b));
}

/// Texts that differ only in a middle part differ.
proof fn lemma_middle_differs(p: Seq<char>, x: Seq<char>, y: Seq<char>, t: Seq<char>)
    requires
        x != y,
    ensures
        p + x + t != p + y + t,
{
    if x.len() == y.len() {
        if forall|i: int| 0 <= i < x.len() ==> x[i] == y[i] {
            assert(x =~= y);
        }
        let i = choose|i: int| 0 <= i < x.len() && x[i] != y[i];
        assert((p + x + t)[p.len() + i] == x[i]);
        assert((p + y + t)[p.len() + i] == y[i]);
    } else {
        assert((p + x + t).len() != (p + y + t).len());
    }
}

/// Joining parts that differ in exactly one place gives different texts.
proof fn lemma_join_differs_at(q1: Seq<Seq<char>>, q2: Seq<Seq<char>>, sep: Seq<char>, j: int)
    requires
        q1.len() == q2.len(),
        0 <= j < q1.len(),
        q1[j] != q2[j],
        forall|i: int| 0 <= i < q1.len() && i != j ==> q1[i] == q2[i],
    ensures
        join(q1, sep) != join(q2, sep),
    decreases q1.len(),
{
    if q1.len() > 1 {
        let d1 = q1.drop_last();
        let d2 = q2.drop_last();
        if j == q1.len() - 1 {
            assert(d1 =~= d2);
            lemma_middle_differs(join(d1, sep) + sep, q1.last(), q2.last(), Seq::empty());
            assert(join(q1, sep) =~= join(d1, sep) + sep + q1.last() + Seq::empty());
            assert(join(q2, sep) =~= join(d1, sep) + sep + q2.last() + Seq::empty());
        } else {
            lemma_join_differs_at(d1, d2, sep, j);
            lemma_middle_differs(Seq::empty(), join(d1, sep), join(d2, sep), sep + q1.last());
            assert(join(q1, sep) =~= Seq::empty() + join(d1, sep) + (sep + q1.last()));
            assert(join(q2, sep) =~= Seq::empty() + join(d2, sep) + (sep + q1.last()));
        }
    }
}

/// Two nodes of one kind whose slots agree on every slot of the kind but
/// one, where the two values of that slot have different canonical texts,
/// have different canonical forms.
pub proof fn lemma_canonical_form_tells_slots_apart(
    subtype: Subtype,
    kind: Kind,
    a: Map<Seq<char>, SlotDataModel>,
    b: Map<Seq<char>, SlotDataModel>,
    j: int,
)
    requires
        0 <= j < kind_slots(kind).len(),
        forall|i: int|
            0 <= i < kind_slots(kind).len() && i != j ==> a[(#[trigger] kind_slots(kind)[i]).name] == b[kind_slots(kind)[i].name],
        slot_canonical(a[kind_slots(kind)[j].name], kind_normalized_slots(kind).contains(kind_slots(kind)[j].name))
            != slot_canonical(b[kind_slots(kind)[j].name], kind_normalized_slots(kind).contains(kind_slots(kind)[j].name)),
    ensures
        canonical_form_of(subtype, kind, a) != canonical_form_of(subtype, kind, b),
{
    let n = kind_slots(kind)[j].name;
    let norm = kind_normalized_slots(kind).contains(n);
    let pa = slot_parts(kind, a);
    let pb = slot_parts(kind, b);
    lemma_middle_differs(n + "="@, slot_canonical(a[n], norm), slot_canonical(b[n], norm), Seq::empty());
    assert(pa[j] =~= n + "="@ + slot_canonical(a[n], norm) + Seq::empty());
    assert(pb[j] =~= n + "="@ + slot_canonical(b[n], norm) + Seq::empty());
    let head = seq![subtype_name(subtype), kind_name(kind)];
    let q1 = head + pa;
    let q2 = head + pb;
    assert(q1[2 + j] == pa[j]);
    assert(q2[2 + j] == pb[j]);
    assert forall|i: int| 0 <= i < q1.len() && i != 2 + j implies q1[i] == q2[i] by {
        if i >= 2 {
            assert(q1[i] == pa[i - 2]);
            assert(q2[i] == pb[i - 2]);
        }
    }
    lemma_join_differs_at(q1, q2, "|"@, 2 + j);
}

/// Two nodes of one kind whose slots agree but for one condition slot,
/// where the two conditions differ in exactly one of field, operator and
/// value, have different canonical forms: `status = "draft"` and
/// `status != "draft"` are different computations.
pub proof fn lemma_condition_parts_count(
    subtype: Subtype,
    kind: Kind,
    slots: Map<Seq<char>, SlotDataModel>,
    j: int,
    f1: Seq<char>,
    o1: Seq<char>,
    v1: Seq<char>,
    f2: Seq<char>,
    o2: Seq<char>,
    v2: Seq<char>,
)
    requires
        0 <= j < kind_slots(kind).len(),
        (f1 != f2 && o1 == o2 && v1 == v2) || (f1 == f2 && o1 != o2 && v1 == v2) || (f1 == f2 && o1 == o2 && v1 != v2),
    ensures
        canonical_form_of(subtype, kind, slots.insert(kind_slots(kind)[j].name, SlotDataModel::Cond(f1, o1, v1)))
            != canonical_form_of(subtype, kind, slots.insert(kind_slots(kind)[j].name, SlotDataModel::Cond(f2, o2, v2))),
{
    let n = kind_slots(kind)[j].name;
    let a = slots.insert(n, SlotDataModel::Cond(f1, o1, v1));
    let b = slots.insert(n, SlotDataModel::Cond(f2, o2, v2));
    crate::roundtrip::lemma_kind_words(kind);
    assert forall|i: int| 0 <= i < kind_slots(kind).len() && i != j implies a[(#[trigger] kind_slots(kind)[i]).name]
        == b[kind_slots(kind)[i].name] by {
        if i < j {
            assert(kind_slots(kind)[i].name != kind_slots(kind)[j].name);
        } else {
            assert(kind_slots(kind)[j].name != kind_slots(kind)[i].name);
        }
    }
    let t1 = "("@ + f1 + ","@ + o1 + ","@ + v1 + ")"@;
    let t2 = "("@ + f2 + ","@ + o2 + ","@ + v2 + ")"@;
    if f1 != f2 {
        lemma_middle_differs("("@, f1, f2, ","@ + o1 + ","@ + v1 + ")"@);
        assert(t1 =~= "("@ + f1 + (","@ + o1 + ","@ + v1 + ")"@));
        assert(t2 =~= "("@ + f2 + (","@ + o1 + ","@ + v1 + ")"@));
    } else if o1 != o2 {
        lemma_middle_differs("("@ + f1 + ","@, o1, o2, ","@ + v1 + ")"@);
        assert(t1 =~= "("@ + f1 + ","@ + o1 + (","@ + v1 + ")"@));
        assert(t2 =~= "("@ + f1 + ","@ + o2 + (","@ + v1 + ")"@));
    } else {
        lemma_middle_differs("("@ + f1 + ","@ + o1 + ","@, v1, v2, ")"@);
    }
    lemma_canonical_form_tells_slots_apart(subtype, kind, a, b, j);
}

/// Two nodes of one kind whose slots agree but for one slot holding a text
/// (or a name), with different texts, have different canonical forms.
pub proof fn lemma_text_slot_counts(
    subtype: Subtype,
    kind: Kind,
    slots: Map<Seq<char>, SlotDataModel>,
    j: int,
    x: Seq<char>,
    y: Seq<char>,
)
    requires
        0 <= j < kind_slots(kind).len(),
        x != y,
    ensures
        canonical_form_of(subtype, kind, slots.insert(kind_slots(kind)[j].name, SlotDataModel::Str(x))) != canonical_form_of(
            subtype,
            kind,
            slots.insert(kind_slots(kind)[j].name, SlotDataModel::Str(y)),
        ),
        canonical_form_of(subtype, kind, slots.insert(kind_slots(kind)[j].name, SlotDataModel::Ident(x))) != canonical_form_of(
            subtype,
            kind,
            slots.insert(kind_slots(kind)[j].name, SlotDataModel::Ident(y)),
        ),
{
    let n = kind_slots(kind)[j].name;
    crate::roundtrip::lemma_kind_words(kind);
    assert forall|i: int| 0 <= i < kind_slots(kind).len() && i != j implies kind_slots(kind)[i].name != n by {
        if i < j {
            assert(kind_slots(kind)[i].name != kind_slots(kind)[j].name);
        } else {
            assert(kind_slots(kind)[j].name != kind_slots(kind)[i].name);
        }
    }
    lemma_canonical_form_tells_slots_apart(subtype, kind, slots.insert(n, SlotDataModel::Str(x)), slots.insert(n, SlotDataModel::Str(y)), j);
    lemma_canonical_form_tells_slots_apart(
        subtype,
        kind,
        slots.insert(n, SlotDataModel::Ident(x)),
        slots.insert(n, SlotDataModel::Ident(y)),
        j,
    );
}

/// Two nodes of one kind whose slots agree but for one argument slot the
/// registry does not normalize, where the two argument lists name the same
/// arguments in the same order and differ in the value of one of them,
/// have different canonical forms.
pub proof fn lemma_argument_value_counts(
    subtype: Subtype,
    kind: Kind,
    slots: Map<Seq<char>, SlotDataModel>,
    j: int,
    p: Seq<(Seq<char>, Seq<char>)>,
    q: Seq<(Seq<char>, Seq<char>)>,
    m: int,
)
    requires
        0 <= j < kind_slots(kind).len(),
        !kind_normalized_slots(kind).contains(kind_slots(kind)[j].name),
        p.len() == q.len(),
        0 <= m < p.len(),
        p[m].0 == q[m].0,
        p[m].1 != q[m].1,
        forall|i: int| 0 <= i < p.len() && i != m ==> p[i] == q[i],
    ensures
        canonical_form_of(subtype, kind, slots.insert(kind_slots(kind)[j].name, SlotDataModel::Args(p))) != canonical_form_of(
            subtype,
            kind,
            slots.insert(kind_slots(kind)[j].name, SlotDataModel::Args(q)),
        ),
{
    let n = kind_slots(kind)[j].name;
    crate::roundtrip::lemma_kind_words(kind);
    assert forall|i: int| 0 <= i < kind_slots(kind).len() && i != j implies kind_slots(kind)[i].name != n by {
        if i < j {
            assert(kind_slots(kind)[i].name != kind_slots(kind)[j].name);
        } else {
            assert(kind_slots(kind)[j].name != kind_slots(kind)[i].name);
        }
    }
    let tp = p.map_values(|a: (Seq<char>, Seq<char>)| arg_text(a));
    let tq = q.map_values(|a: (Seq<char>, Seq<char>)| arg_text(a));
    lemma_middle_differs(p[m].0 + "="@, p[m].1, q[m].1, Seq::empty());
    assert(tp[m] =~= p[m].0 + "="@ + p[m].1 + Seq::empty());
    assert(tq[m] =~= p[m].0 + "="@ + q[m].1 + Seq::empty());
    assert forall|i: int| 0 <= i < tp.len() && i != m implies tp[i] == tq[i] by {
        assert(p[i] == q[i]);
    }
    lemma_join_differs_at(tp, tq, ","@, m);
    lemma_canonical_form_tells_slots_apart(subtype, kind, slots.insert(n, SlotDataModel::Args(p)), slots.insert(n, SlotDataModel::Args(q)), j);
}

/// A freshly built node in the root branch.
pub open spec fn new_node(node_id: Seq<char>, subtype: Subtype, kind: Kind, slots: Map<Seq<char>, SlotDataModel>) -> NodeModel {
    NodeModel {
        node_id,
        subtype,
        kind,
        slots,
        branch_id: "root"@,
        cache_key: cache_key_of(subtype, kind, slots),
    }
}

pub(crate) fn contains_name(names: &Vec<&'static str>, name: &str) -> (res: bool)
    ensures
        res == str_views(names@).contains(name@),
{
    let mut i: usize = 0;
    while i < names.len()
        invariant
            i <= names.len(),
            forall|j: int| 0 <= j < i ==> names@[j]@ != name@,
        decreases names.len() - i,
    {
        if str_eq(names[i], name) {
            assert(str_views(names@)[i as int] == name@);
            return true;
        }
        i += 1;
    }
    proof {
        if str_views(names@).contains(name@) {
            let j = str_views(names@).index_of(name@);
            assert(names@[j]@ == name@);
        }
    }
    false
}

/// A copy of a slot map.
pub fn duplicate_slots(m: &KeyedMap<SlotData>) -> (res: KeyedMap<SlotData>)
    ensures
        res.deep() == m.deep(),
{
    let mut res: KeyedMap<SlotData> = KeyedMap::new();
    let n = m.len();
    m.lemma_sorted();
    for i in 0..n
        invariant
            n == m.key_seq().len(),
            crate::keyed_map::keys_sorted(m.key_seq()),
            forall|q: Seq<char>| #[trigger] res.has(q) <==> m.key_seq().take(i as int).contains(q),
            forall|q: Seq<char>| #[trigger] res.has(q) ==> res.at(q)@ == m.at(q)@,
    {
        let k = m.key_at(i);
        let v = m.value_at(i);
        let ghost before = res;
        res.insert(k.clone(), v.duplicate());
        proof {
            crate::keyed_map::lemma_index_of_unique(m.key_seq(), m.key_seq()[i as int], i as int);
            assert(m.key_seq().take(i + 1) =~= m.key_seq().take(i as int).push(m.key_seq()[i as int]));
            assert forall|q: Seq<char>| #[trigger] res.has(q) <==> m.key_seq().take(i + 1).contains(q) by {
                if q == m.key_seq()[i as int] {
                    assert(m.key_seq().take(i + 1)[i as int] == q);
                } else {
                    if m.key_seq().take(i + 1).contains(q) {
                        let x = m.key_seq().take(i + 1).index_of(q);
                        assert(m.key_seq().take(i as int)[x] == q);
                    }
                    if m.key_seq().take(i as int).contains(q) {
                        let x = m.key_seq().take(i as int).index_of(q);
                        assert(m.key_seq().take(i + 1)[x] == q);
                    }
                }
            }
        }
    }
    proof {
        assert(m.key_seq().take(n as int) =~= m.key_seq());
        assert(res.deep() =~= m.deep());
    }
    res
}

impl Node {
    /// A node in the root branch; its cache key is computed from its
    /// canonical form.
    pub fn new(node_id: String, subtype: Subtype, kind: Kind, slots: KeyedMap<SlotData>) -> (res: Node)
        requires
            slots_filled(kind, slots.deep()),
        ensures
            res@ == new_node(node_id@, subtype, kind, slots.deep()),
    {
        let mut n = Node { node_id, subtype, kind, slots, branch_id: owned("root"), cache_key: String::new() };
        let key = n.compute_cache_key();
        n.cache_key = key;
        n
    }

    /// The address of the node in the history: (cache key, branch). The
    /// cache key does not include the branch.
    pub fn graph_node_id(&self) -> (res: (String, String))
        ensures
            res.0@ == self.cache_key@,
            res.1@ == self.branch_id@,
    {
        (self.cache_key.clone(), self.branch_id.clone())
    }

    /// The canonical form `SUBTYPE|KIND|name=value|...`: slot order and
    /// normalization come from the registry.
    pub fn canonical_form(&self) -> (res: String)
        requires
            slots_filled(self.kind, self.slots.deep()),
        ensures
            res@ == canonical_form_of(self.subtype, self.kind, self.slots.deep()),
    {
        let entry = spec(self.kind);
        let ghost slots = self.slots.deep();
        let mut parts: Vec<String> = Vec::new();
        parts.push(owned(self.subtype.as_str()));
        parts.push(owned(self.kind.as_str()));
        let ghost head = seq![subtype_name(self.subtype), kind_name(self.kind)];
        assert(string_views(parts@) =~= head);
        for i in 0..entry.slots.len()
            invariant
                entry@ == kind_spec(self.kind),
                slots == self.slots.deep(),
                slots_filled(self.kind, slots),
                parts.len() == i + 2,
                string_views(parts@) == head + slot_parts(self.kind, slots).take(i as int),
        {
            let slot = &entry.slots[i];
            proof {
                assert(entry@.slots[i as int] == slot@);
                assert(slots.dom().contains(kind_slots(self.kind)[i as int].name));
            }
            let normalize = contains_name(&entry.normalized_slots, slot.name);
            let mut part = owned(slot.name);
            append(&mut part, "=");
            proof {
                assert(entry@.normalized_slots == kind_normalized_slots(self.kind));
                assert(normalize == kind_normalized_slots(self.kind).contains(slot.name@));
                assert(self.slots.has(slot.name@));
            }
            match self.slots.get(slot.name) {
                Some(value) => {
                    assert(value@ == slots[slot.name@]);
                    let c = value.canonical(normalize);
                    append(&mut part, c.as_str());
                },
                None => {},
            }
            assert(part@ == slot_parts(self.kind, slots)[i as int]);
            let ghost before = string_views(parts@);
            parts.push(part);
            proof {
                assert(string_views(parts@) =~= before.push(slot_parts(self.kind, slots)[i as int]));
                assert(slot_parts(self.kind, slots).take(i + 1) =~= slot_parts(self.kind, slots).take(i as int).push(
                    slot_parts(self.kind, slots)[i as int],
                ));
                assert(string_views(parts@) =~= head + slot_parts(self.kind, slots).take(i + 1));
            }
        }
        proof {
            assert(slot_parts(self.kind, slots).take(entry.slots.len() as int) =~= slot_parts(self.kind, slots));
        }
        join_strings(&parts, "|")
    }

    fn compute_cache_key(&self) -> (res: String)
        requires
            slots_filled(self.kind, self.slots.deep()),
        ensures
            res@ == cache_key_of(self.subtype, self.kind, self.slots.deep()),
    {
        let form = self.canonical_form();
        digest_hex_prefix(form.as_str(), 16)
    }

    /// A copy of the node.
    pub fn duplicate(&self) -> (res: Node)
        ensures
            res@ == self@,
    {
        Node {
            node_id: self.node_id.clone(),
            subtype: self.subtype,
            kind: self.kind,
            slots: duplicate_slots(&self.slots),
            branch_id: self.branch_id.clone(),
            cache_key: self.cache_key.clone(),
        }
    }
}

#[derive(Debug, Clone, Copy, PartialEq, Eq, Structural)]
pub enum EdgeType {
    /// `->`: one step after the other.
    Sequence,
    Branch,
    Merge,
}

#[derive(Debug, Clone)]
pub struct Edge {
    pub source: String,
    pub target: String,
    pub edge_type: EdgeType,
    pub label: Option<String>,
}

pub struct EdgeModel {
    pub source: Seq<char>,
    pub target: Seq<char>,
    pub edge_type: EdgeType,
    pub label: Option<Seq<char>>,
}

impl View for Edge {
    type V = EdgeModel;

    open spec fn view(&self) -> EdgeModel {
        EdgeModel {
            source: self.source@,
            target: self.target@,
            edge_type: self.edge_type,
            label: match self.label {
                Some(l) => Some(l@),
                None => None,
            },
        }
    }
}

pub open spec fn edge_views(v: Seq<Edge>) -> Seq<EdgeModel> {
    v.map_values(|e: Edge| e@)
}

impl Edge {
    /// A copy of the edge.
    pub fn duplicate(&self) -> (res: Edge)
        ensures
            res@ == self@,
    {
        Edge {
            source: self.source.clone(),
            target: self.target.clone(),
            edge_type: self.edge_type,
            label: match &self.label {
                Some(l) => Some(l.clone()),
                None => None,
            },
        }
    }
}

#[derive(Debug)]
pub struct IntentGraph {
    pub nodes: KeyedMap<Node>,
    pub edges: Vec<Edge>,
}

pub struct GraphModel {
    pub nodes: Map<Seq<char>, NodeModel>,
    pub edges: Seq<EdgeModel>,
}

impl View for IntentGraph {
    type V = GraphModel;

    open spec fn view(&self) -> GraphModel {
        GraphModel { nodes: self.nodes.deep(), edges: edge_views(self.edges@) }
    }
}

/// Each node is stored under its own id.
pub open spec fn graph_keyed(g: GraphModel) -> bool {
    forall|x: Seq<char>| #[trigger] g.nodes.dom().contains(x) ==> g.nodes[x].node_id == x
}

/// Every node of the graph has all the slots of its kind.
pub open spec fn graph_wf(g: GraphModel) -> bool {
    forall|id: Seq<char>| #[trigger] g.nodes.dom().contains(id) ==> slots_filled(g.nodes[id].kind, g.nodes[id].slots)
}

/// The message for a node declared twice.
pub open spec fn duplicate_node_error(id: Seq<char>) -> Seq<char> {
    "узел '"@ + id + "' объявлен повторно"@
}

/// The first edge, in order, with an endpoint that is not a node, as the
/// message that reports it; the source is checked before the target.
pub open spec fn endpoint_error(nodes: Map<Seq<char>, NodeModel>, edges: Seq<EdgeModel>) -> Option<Seq<char>>
    decreases edges.len(),
{
    if edges.len() == 0 {
        None
    } else {
        match endpoint_error(nodes, edges.drop_last()) {
            Some(m) => Some(m),
            None => {
                let e = edges.last();
                if !nodes.dom().contains(e.source) {
                    Some("ребро ссылается на необъявленный узел-источник '"@ + e.source + "'"@)
                } else if !nodes.dom().contains(e.target) {
                    Some("ребро ссылается на необъявленный узел-цель '"@ + e.target + "'"@)
                } else {
                    None
                }
            },
        }
    }
}

impl IntentGraph {
    /// An empty graph.
    pub fn new() -> (res: IntentGraph)
        ensures
            res@.nodes == Map::<Seq<char>, NodeModel>::empty(),
            res@.edges == Seq::<EdgeModel>::empty(),
    {
        let res = IntentGraph { nodes: KeyedMap::new(), edges: Vec::new() };
        assert(res@.nodes =~= Map::<Seq<char>, NodeModel>::empty());
        assert(res@.edges =~= Seq::<EdgeModel>::empty());
        res
    }

    /// Adds a node; a node id may be declared once.
    pub fn add_node(&mut self, node: Node) -> (res: Result<(), String>)
        ensures
            match res {
                Ok(()) => !old(self)@.nodes.dom().contains(node@.node_id) && final(self)@.nodes == old(
                    self,
                )@.nodes.insert(node@.node_id, node@),
                Err(m) => old(self)@.nodes.dom().contains(node@.node_id) && m@ == duplicate_node_error(
                    node@.node_id,
                ) && final(self)@.nodes == old(self)@.nodes,
            },
            final(self)@.edges == old(self)@.edges,
    {
        if self.nodes.contains_key(node.node_id.as_str()) {
            let mut m = owned("узел '");
            append(&mut m, node.node_id.as_str());
            append(&mut m, "' объявлен повторно");
            return Err(m);
        }
        let ghost before = self.nodes;
        let ghost nv = node@;
        let key = node.node_id.clone();
        self.nodes.insert(key, node);
        proof {
            lemma_deep_insert(before, self.nodes, nv.node_id, self.nodes.at(nv.node_id));
        }
        Ok(())
    }

    /// Appends an edge.
    pub fn add_edge(&mut self, edge: Edge)
        ensures
            final(self)@.nodes == old(self)@.nodes,
            final(self)@.edges == old(self)@.edges.push(edge@),
    {
        self.edges.push(edge);
        assert(edge_views(self.edges@) =~= edge_views(old(self).edges@).push(edge@));
    }

    /// Edges must point at declared nodes: the first edge that does not is
    /// reported.
    pub fn validate_edge_endpoints(&self) -> (res: Result<(), String>)
        ensures
            match res {
                Ok(()) => endpoint_error(self@.nodes, self@.edges) is None,
                Err(m) => endpoint_error(self@.nodes, self@.edges) == Some(m@),
            },
    {
        let ghost nodes = self@.nodes;
        let ghost ev = self@.edges;
        for i in 0..self.edges.len()
            invariant
                nodes == self@.nodes,
                ev == self@.edges,
                endpoint_error(nodes, ev.take(i as int)) is None,
        {
            let e = &self.edges[i];
            proof {
                assert(ev.take(i + 1).drop_last() =~= ev.take(i as int));
                assert(ev.take(i + 1).last() == e@);
            }
            if !self.nodes.contains_key(e.source.as_str()) {
                let mut m = owned("ребро ссылается на необъявленный узел-источник '");
                append(&mut m, e.source.as_str());
                append(&mut m, "'");
                proof {
                    lemma_endpoint_error_prefix(nodes, ev, i + 1);
                }
                return Err(m);
            }
            if !self.nodes.contains_key(e.target.as_str()) {
                let mut m = owned("ребро ссылается на необъявленный узел-цель '");
                append(&mut m, e.target.as_str());
                append(&mut m, "'");
                proof {
                    lemma_endpoint_error_prefix(nodes, ev, i + 1);
                }
                return Err(m);
            }
        }
        assert(ev.take(self.edges.len() as int) =~= ev);
        Ok(())
    }
}

/// Once a prefix of the edges has an endpoint error, the whole sequence has
/// the same one.
proof fn lemma_endpoint_error_prefix(nodes: Map<Seq<char>, NodeModel>, edges: Seq<EdgeModel>, n: int)
    requires
        0 <= n <= edges.len(),
        endpoint_error(nodes, edges.take(n)) is Some,
    ensures
        endpoint_error(nodes, edges) == endpoint_error(nodes, edges.take(n)),
    decreases edges.len() - n,
{
    if n < edges.len() {
        assert(edges.take(n + 1).drop_last() =~= edges.take(n));
        lemma_endpoint_error_prefix(nodes, edges, n + 1);
    } else {
        assert(edges.take(n) =~= edges);
    }
}

// ---------------------------------------------------------------------
// Parse errors
// ---------------------------------------------------------------------

#[derive(Debug)]
pub struct LuckParseError {
    pub message: String,
    pub line: usize,
    pub col: usize,
}

pub struct ParseErrorModel {
    pub message: Seq<char>,
    pub line: int,
    pub col: int,
}

impl View for LuckParseError {
    type V = ParseErrorModel;

    open spec fn view(&self) -> ParseErrorModel {
        ParseErrorModel { message: self.message@, line: self.line as int, col: self.col as int }
    }
}

/// A lexer error reported by the parser: same message and position.
pub open spec fn lex_to_parse(e: LexErrorModel) -> ParseErrorModel {
    ParseErrorModel { message: e.message, line: e.line, col: e.col }
}

impl LuckParseError {
    /// The lexer's error as a parse error.
    pub fn from_lex(e: LuckLexError) -> (res: LuckParseError)
        ensures
            res@ == lex_to_parse(e@),
    {
        LuckParseError { message: e.message, line: e.line, col: e.col }
    }

    /// `[парсер] <message> (<line>:<col>)`.
    pub fn describe(&self) -> (res: String)
        ensures
            res@ == "[парсер] "@ + self.message@ + " ("@ + crate::text::decimal(self.line as nat) + ":"@
                + crate::text::decimal(self.col as nat) + ")"@,
    {
        let mut r = owned("[парсер] ");
        append(&mut r, self.message.as_str());
        append(&mut r, " (");
        let l = crate::text::usize_to_string(self.line);
        append(&mut r, l.as_str());
        append(&mut r, ":");
        let c = crate::text::usize_to_string(self.col);
        append(&mut r, c.as_str());
        append(&mut r, ")");
        r
    }
}

// ---------------------------------------------------------------------
// The grammar, as functions of the token stream
//
// Each function reads from a position and gives the value read and the
// position after it. On a stream that ends with `Eof` (all streams the
// lexer produces) positions stay within the stream; the loops below still
// test for that, which keeps them total on any sequence.
// ---------------------------------------------------------------------

/// The name of a token type, as `Debug` prints it.
pub open spec fn ttype_name(t: TokenType) -> Seq<char> {
    match t {
        TokenType::Node => "Node"@,
        TokenType::Edges => "Edges"@,
        TokenType::End => "End"@,
        TokenType::Generative => "Generative"@,
        TokenType::External => "External"@,
        TokenType::Reject => "Reject"@,
        TokenType::Kind => "Kind"@,
        TokenType::SlotKeyword => "SlotKeyword"@,
        TokenType::ArrowSeq => "ArrowSeq"@,
        TokenType::ArrowBranch => "ArrowBranch"@,
        TokenType::ArrowMerge => "ArrowMerge"@,
        TokenType::Colon => "Colon"@,
        TokenType::Comma => "Comma"@,
        TokenType::LBracket => "LBracket"@,
        TokenType::RBracket => "RBracket"@,
        TokenType::At => "At"@,
        TokenType::Eq => "Eq"@,
        TokenType::Neq => "Neq"@,
        TokenType::Gt => "Gt"@,
        TokenType::Lt => "Lt"@,
        TokenType::Gte => "Gte"@,
        TokenType::Lte => "Lte"@,
        TokenType::Identifier => "Identifier"@,
        TokenType::String => "String"@,
        TokenType::Number => "Number"@,
        TokenType::Eof => "Eof"@,
    }
}

/// A token stream the parser accepts: it ends with `Eof`.
pub open spec fn toks_wf(ts: Seq<TokenModel>) -> bool {
    ts.len() > 0 && ts.last().ttype == TokenType::Eof
}

/// The position after the token at `p`; `Eof` is never passed.
pub open spec fn adv(ts: Seq<TokenModel>, p: int) -> int {
    if ts[p].ttype != TokenType::Eof {
        p + 1
    } else {
        p
    }
}

pub open spec fn err_at(t: TokenModel, message: Seq<char>) -> ParseErrorModel {
    ParseErrorModel { message, line: t.line, col: t.col }
}

pub open spec fn expected_message(tt: TokenType, got: TokenModel) -> Seq<char> {
    "ожидался "@ + ttype_name(tt) + ", получено "@ + ttype_name(got.ttype) + "="@ + str_debug(got.value)
}

/// The token at `p` if it has type `tt`.
pub open spec fn expect_spec(ts: Seq<TokenModel>, p: int, tt: TokenType) -> Result<(TokenModel, int), ParseErrorModel> {
    if ts[p].ttype != tt {
        Err(err_at(ts[p], expected_message(tt, ts[p])))
    } else {
        Ok((ts[p], adv(ts, p)))
    }
}

/// A value: a string (kept with its quotes), a number, or `@name`.
pub open spec fn value_spec(ts: Seq<TokenModel>, p: int) -> Result<(Seq<char>, int), ParseErrorModel> {
    let t = ts[p];
    if t.ttype == TokenType::String {
        Ok((quote(t.value), adv(ts, p)))
    } else if t.ttype == TokenType::Number {
        Ok((t.value, adv(ts, p)))
    } else if t.ttype == TokenType::At {
        match expect_spec(ts, adv(ts, p), TokenType::Identifier) {
            Err(e) => Err(e),
            Ok(r) => Ok((seq!['@'] + r.0.value, r.1)),
        }
    } else {
        Err(err_at(t, "ожидалось значение (строка/число/@ссылка)"@))
    }
}

/// The comparison operators, as text.
pub open spec fn cmp_op(t: TokenType) -> Option<Seq<char>> {
    match t {
        TokenType::Eq => Some("="@),
        TokenType::Neq => Some("!="@),
        TokenType::Gt => Some(">"@),
        TokenType::Lt => Some("<"@),
        TokenType::Gte => Some(">="@),
        TokenType::Lte => Some("<="@),
        _ => None,
    }
}

/// `field op value`.
pub open spec fn condition_spec(ts: Seq<TokenModel>, p: int) -> Result<(SlotDataModel, int), ParseErrorModel> {
    match expect_spec(ts, p, TokenType::Identifier) {
        Err(e) => Err(e),
        Ok(l) => {
            let op_tok = ts[l.1];
            match cmp_op(op_tok.ttype) {
                None => Err(err_at(op_tok, "ожидался оператор сравнения"@)),
                Some(op) => match value_spec(ts, adv(ts, l.1)) {
                    Err(e) => Err(e),
                    Ok(r) => Ok((SlotDataModel::Cond(l.0.value, op, r.0), r.1)),
                },
            }
        },
    }
}

/// `name = value`.
pub open spec fn arg_spec(ts: Seq<TokenModel>, p: int) -> Result<((Seq<char>, Seq<char>), int), ParseErrorModel> {
    match expect_spec(ts, p, TokenType::Identifier) {
        Err(e) => Err(e),
        Ok(n) => match expect_spec(ts, n.1, TokenType::Eq) {
            Err(e) => Err(e),
            Ok(q) => match value_spec(ts, q.1) {
                Err(e) => Err(e),
                Ok(v) => Ok(((n.0.value, v.0), v.1)),
            },
        },
    }
}

pub proof fn lemma_adv(ts: Seq<TokenModel>, p: int)
    ensures
        p <= adv(ts, p) <= p + 1,
        ts[p].ttype != TokenType::Eof ==> adv(ts, p) == p + 1,
{
}

pub proof fn lemma_value_advances(ts: Seq<TokenModel>, p: int)
    ensures
        value_spec(ts, p) is Ok ==> p < value_spec(ts, p)->Ok_0.1,
{
    lemma_adv(ts, p);
    lemma_adv(ts, adv(ts, p));
}

pub proof fn lemma_arg_advances(ts: Seq<TokenModel>, p: int)
    ensures
        arg_spec(ts, p) is Ok ==> p < arg_spec(ts, p)->Ok_0.1,
{
    lemma_adv(ts, p);
    lemma_adv(ts, p + 1);
    lemma_value_advances(ts, adv(ts, p + 1));
}

/// `, name = value` repeated, after the pairs `acc`.
pub open spec fn more_args(ts: Seq<TokenModel>, p: int, acc: Seq<(Seq<char>, Seq<char>)>) -> Result<
    (Seq<(Seq<char>, Seq<char>)>, int),
    ParseErrorModel,
>
    decreases ts.len() - p,
{
    if 0 <= p < ts.len() && ts[p].ttype == TokenType::Comma {
        match arg_spec(ts, p + 1) {
            Err(e) => Err(e),
            Ok(a) => {
                proof {
                    lemma_arg_advances(ts, p + 1);
                }
                if a.1 <= ts.len() {
                    more_args(ts, a.1, acc.push(a.0))
                } else {
                    Ok((acc.push(a.0), a.1))
                }
            },
        }
    } else {
        Ok((acc, p))
    }
}

/// `name = value , name = value ...` (at least one pair).
pub open spec fn arg_list_spec(ts: Seq<TokenModel>, p: int) -> Result<(SlotDataModel, int), ParseErrorModel> {
    match arg_spec(ts, p) {
        Err(e) => Err(e),
        Ok(a) => match more_args(ts, a.1, seq![a.0]) {
            Err(e) => Err(e),
            Ok(r) => Ok((SlotDataModel::Args(r.0), r.1)),
        },
    }
}

/// How `{:?}` prints a list of strings: `["a", "b"]`.
pub open spec fn debug_list(opts: Seq<Seq<char>>) -> Seq<char> {
    "["@ + join(opts.map_values(|o: Seq<char>| str_debug(o)), ", "@) + "]"@
}

/// The value of a slot, by the slot's value type.
pub open spec fn slot_value_spec(ts: Seq<TokenModel>, p: int, slot: SlotModel) -> Result<(SlotDataModel, int), ParseErrorModel> {
    match slot.value {
        SlotValueModel::Str => match expect_spec(ts, p, TokenType::String) {
            Err(e) => Err(e),
            Ok(t) => Ok((SlotDataModel::Str(t.0.value), t.1)),
        },
        SlotValueModel::Ident => match expect_spec(ts, p, TokenType::Identifier) {
            Err(e) => Err(e),
            Ok(t) => Ok((SlotDataModel::Ident(t.0.value), t.1)),
        },
        SlotValueModel::Cond => condition_spec(ts, p),
        SlotValueModel::Args => arg_list_spec(ts, p),
        SlotValueModel::Enum(opts) => if opts.contains(ts[p].value) {
            Ok((SlotDataModel::Ident(ts[p].value), adv(ts, p)))
        } else {
            Err(err_at(ts[p], "ожидалось одно из "@ + debug_list(opts)))
        },
    }
}

/// The message for a slot keyword out of place.
pub open spec fn keyword_message(kind: Kind, keyword: Seq<char>) -> Seq<char> {
    "в узле "@ + kind_name(kind) + " ожидалось ключевое слово '"@ + keyword + "'"@
}

/// The slots of a node body from slot `j` of the kind on, added to `acc`.
pub open spec fn body_spec(ts: Seq<TokenModel>, p: int, kind: Kind, j: int, acc: Map<Seq<char>, SlotDataModel>) -> Result<
    (Map<Seq<char>, SlotDataModel>, int),
    ParseErrorModel,
>
    decreases kind_slots(kind).len() - j,
{
    if j < 0 || j >= kind_slots(kind).len() {
        Ok((acc, p))
    } else {
        let slot = kind_slots(kind)[j];
        if ts[p].value != slot.keyword {
            Err(err_at(ts[p], keyword_message(kind, slot.keyword)))
        } else {
            match slot_value_spec(ts, adv(ts, p), slot) {
                Err(e) => Err(e),
                Ok(v) => body_spec(ts, v.1, kind, j + 1, acc.insert(slot.name, v.0)),
            }
        }
    }
}

pub open spec fn unknown_kind_message(v: Seq<char>) -> Seq<char> {
    "неизвестный kind '"@ + v + "'"@
}

pub open spec fn unknown_subtype_message(v: Seq<char>) -> Seq<char> {
    "неизвестный subtype '"@ + v + "'"@
}

/// `NODE id : KIND [ SUBTYPE ] <body> END`.
#[verifier::opaque]
pub open spec fn node_decl_spec(ts: Seq<TokenModel>, p: int) -> Result<(NodeModel, int), ParseErrorModel> {
    match expect_spec(ts, p, TokenType::Node) {
        Err(e) => Err(e),
        Ok(a) => match expect_spec(ts, a.1, TokenType::Identifier) {
            Err(e) => Err(e),
            Ok(id) => match expect_spec(ts, id.1, TokenType::Colon) {
                Err(e) => Err(e),
                Ok(b) => match expect_spec(ts, b.1, TokenType::Kind) {
                    Err(e) => Err(e),
                    Ok(k) => match kind_from_name(k.0.value) {
                        None => Err(err_at(k.0, unknown_kind_message(k.0.value))),
                        Some(kind) => match expect_spec(ts, k.1, TokenType::LBracket) {
                            Err(e) => Err(e),
                            Ok(c) => {
                                let st = ts[c.1];
                                match subtype_from_name(st.value) {
                                    None => Err(err_at(st, unknown_subtype_message(st.value))),
                                    Some(subtype) => match expect_spec(ts, adv(ts, c.1), TokenType::RBracket) {
                                        Err(e) => Err(e),
                                        Ok(d) => if kind_subtype(kind) != subtype {
                                            Err(err_at(k.0, kind_subtype_error(kind, subtype)))
                                        } else {
                                            match body_spec(ts, d.1, kind, 0, Map::empty()) {
                                                Err(e) => Err(e),
                                                Ok(body) => match expect_spec(ts, body.1, TokenType::End) {
                                                    Err(e) => Err(e),
                                                    Ok(f) => Ok((new_node(id.0.value, subtype, kind, body.0), f.1)),
                                                },
                                            }
                                        },
                                    },
                                }
                            },
                        },
                    },
                },
            },
        },
    }
}

pub proof fn lemma_node_decl_advances(ts: Seq<TokenModel>, p: int)
    ensures
        node_decl_spec(ts, p) is Ok ==> p < node_decl_spec(ts, p)->Ok_0.1,
{
    reveal(node_decl_spec);
    if node_decl_spec(ts, p) is Ok {
        lemma_adv(ts, p);
        let a = expect_spec(ts, p, TokenType::Node)->Ok_0;
        let id = expect_spec(ts, a.1, TokenType::Identifier)->Ok_0;
        lemma_adv(ts, a.1);
        let b = expect_spec(ts, id.1, TokenType::Colon)->Ok_0;
        lemma_adv(ts, id.1);
        let k = expect_spec(ts, b.1, TokenType::Kind)->Ok_0;
        lemma_adv(ts, b.1);
        let c = expect_spec(ts, k.1, TokenType::LBracket)->Ok_0;
        lemma_adv(ts, k.1);
        lemma_adv(ts, c.1);
        let d = expect_spec(ts, adv(ts, c.1), TokenType::RBracket)->Ok_0;
        lemma_adv(ts, adv(ts, c.1));
        let kind = kind_from_name(k.0.value)->Some_0;
        lemma_body_advances(ts, d.1, kind, 0, Map::empty());
        let body = body_spec(ts, d.1, kind, 0, Map::empty())->Ok_0;
        lemma_adv(ts, body.1);
    }
}

pub proof fn lemma_slot_value_advances(ts: Seq<TokenModel>, p: int, slot: SlotModel)
    ensures
        slot_value_spec(ts, p, slot) is Ok ==> p <= slot_value_spec(ts, p, slot)->Ok_0.1,
{
    lemma_adv(ts, p);
    lemma_value_advances(ts, adv(ts, adv(ts, p)));
    lemma_arg_advances(ts, p);
    if arg_spec(ts, p) is Ok {
        lemma_more_args_advances(ts, arg_spec(ts, p)->Ok_0.1, seq![arg_spec(ts, p)->Ok_0.0]);
    }
}

pub proof fn lemma_more_args_advances(ts: Seq<TokenModel>, p: int, acc: Seq<(Seq<char>, Seq<char>)>)
    ensures
        more_args(ts, p, acc) is Ok ==> p <= more_args(ts, p, acc)->Ok_0.1,
    decreases ts.len() - p,
{
    if 0 <= p < ts.len() && ts[p].ttype == TokenType::Comma {
        lemma_arg_advances(ts, p + 1);
        if arg_spec(ts, p + 1) is Ok {
            let a = arg_spec(ts, p + 1)->Ok_0;
            if a.1 <= ts.len() {
                lemma_more_args_advances(ts, a.1, acc.push(a.0));
            }
        }
    }
}

pub proof fn lemma_body_advances(ts: Seq<TokenModel>, p: int, kind: Kind, j: int, acc: Map<Seq<char>, SlotDataModel>)
    ensures
        body_spec(ts, p, kind, j, acc) is Ok ==> p <= body_spec(ts, p, kind, j, acc)->Ok_0.1,
    decreases kind_slots(kind).len() - j,
{
    if 0 <= j < kind_slots(kind).len() {
        let slot = kind_slots(kind)[j];
        lemma_adv(ts, p);
        lemma_slot_value_advances(ts, adv(ts, p), slot);
        if ts[p].value == slot.keyword && slot_value_spec(ts, adv(ts, p), slot) is Ok {
            let v = slot_value_spec(ts, adv(ts, p), slot)->Ok_0;
            lemma_body_advances(ts, v.1, kind, j + 1, acc.insert(slot.name, v.0));
        }
    }
}

/// Node declarations from `p` on, after the nodes `acc` (a fragment).
pub open spec fn fragment_spec(ts: Seq<TokenModel>, p: int, acc: Seq<NodeModel>) -> Result<(Seq<NodeModel>, int), ParseErrorModel>
    decreases ts.len() - p,
{
    if 0 <= p < ts.len() && ts[p].ttype == TokenType::Node {
        match node_decl_spec(ts, p) {
            Err(e) => Err(e),
            Ok(n) => {
                proof {
                    lemma_node_decl_advances(ts, p);
                }
                if n.1 <= ts.len() {
                    fragment_spec(ts, n.1, acc.push(n.0))
                } else {
                    Ok((acc.push(n.0), n.1))
                }
            },
        }
    } else {
        Ok((acc, p))
    }
}

/// Node declarations from `p` on, added to the graph's nodes `acc`; a
/// repeated id is reported at the token after its declaration.
pub open spec fn nodes_spec(ts: Seq<TokenModel>, p: int, acc: Map<Seq<char>, NodeModel>) -> Result<
    (Map<Seq<char>, NodeModel>, int),
    ParseErrorModel,
>
    decreases ts.len() - p,
{
    if 0 <= p < ts.len() && ts[p].ttype == TokenType::Node {
        match node_decl_spec(ts, p) {
            Err(e) => Err(e),
            Ok(n) => {
                proof {
                    lemma_node_decl_advances(ts, p);
                }
                if acc.dom().contains(n.0.node_id) {
                    Err(err_at(ts[n.1], duplicate_node_error(n.0.node_id)))
                } else if n.1 <= ts.len() {
                    nodes_spec(ts, n.1, acc.insert(n.0.node_id, n.0))
                } else {
                    Ok((acc.insert(n.0.node_id, n.0), n.1))
                }
            },
        }
    } else {
        Ok((acc, p))
    }
}

pub open spec fn edge_op(t: TokenType) -> Option<EdgeType> {
    match t {
        TokenType::ArrowSeq => Some(EdgeType::Sequence),
        TokenType::ArrowBranch => Some(EdgeType::Branch),
        TokenType::ArrowMerge => Some(EdgeType::Merge),
        _ => None,
    }
}

/// `source op target [label]?`.
pub open spec fn edge_decl_spec(ts: Seq<TokenModel>, p: int) -> Result<(EdgeModel, int), ParseErrorModel> {
    match expect_spec(ts, p, TokenType::Identifier) {
        Err(e) => Err(e),
        Ok(src) => {
            let op_tok = ts[src.1];
            match edge_op(op_tok.ttype) {
                None => Err(err_at(op_tok, "ожидался оператор ребра (-> | => | ~>)"@)),
                Some(et) => match expect_spec(ts, adv(ts, src.1), TokenType::Identifier) {
                    Err(e) => Err(e),
                    Ok(tgt) => if ts[tgt.1].ttype == TokenType::LBracket {
                        match expect_spec(ts, adv(ts, tgt.1), TokenType::Identifier) {
                            Err(e) => Err(e),
                            Ok(l) => match expect_spec(ts, l.1, TokenType::RBracket) {
                                Err(e) => Err(e),
                                Ok(r) => Ok((
                                    EdgeModel {
                                        source: src.0.value,
                                        target: tgt.0.value,
                                        edge_type: et,
                                        label: Some(l.0.value),
                                    },
                                    r.1,
                                )),
                            },
                        }
                    } else {
                        Ok((
                            EdgeModel { source: src.0.value, target: tgt.0.value, edge_type: et, label: None },
                            tgt.1,
                        ))
                    },
                },
            }
        },
    }
}

pub proof fn lemma_edge_decl_advances(ts: Seq<TokenModel>, p: int)
    ensures
        edge_decl_spec(ts, p) is Ok ==> p < edge_decl_spec(ts, p)->Ok_0.1,
{
    lemma_adv(ts, p);
    if edge_decl_spec(ts, p) is Ok {
        let src = expect_spec(ts, p, TokenType::Identifier)->Ok_0;
        lemma_adv(ts, src.1);
        let tgt = expect_spec(ts, adv(ts, src.1), TokenType::Identifier)->Ok_0;
        lemma_adv(ts, adv(ts, src.1));
        lemma_adv(ts, tgt.1);
        lemma_adv(ts, adv(ts, tgt.1));
        if ts[tgt.1].ttype == TokenType::LBracket {
            let l = expect_spec(ts, adv(ts, tgt.1), TokenType::Identifier)->Ok_0;
            lemma_adv(ts, l.1);
        }
    }
}

/// Edge declarations from `p` on, after the edges `acc`.
pub open spec fn edges_spec(ts: Seq<TokenModel>, p: int, acc: Seq<EdgeModel>) -> Result<(Seq<EdgeModel>, int), ParseErrorModel>
    decreases ts.len() - p,
{
    if 0 <= p < ts.len() && ts[p].ttype == TokenType::Identifier {
        match edge_decl_spec(ts, p) {
            Err(e) => Err(e),
            Ok(d) => {
                proof {
                    lemma_edge_decl_advances(ts, p);
                }
                if d.1 <= ts.len() {
                    edges_spec(ts, d.1, acc.push(d.0))
                } else {
                    Ok((acc.push(d.0), d.1))
                }
            },
        }
    } else {
        Ok((acc, p))
    }
}

/// `<edges> END`.
pub open spec fn edge_tail_spec(ts: Seq<TokenModel>, p: int) -> Result<(Seq<EdgeModel>, int), ParseErrorModel> {
    match edges_spec(ts, p, Seq::empty()) {
        Err(e) => Err(e),
        Ok(es) => match expect_spec(ts, es.1, TokenType::End) {
            Err(e) => Err(e),
            Ok(c) => Ok((es.0, c.1)),
        },
    }
}

/// `EDGES : <edges> END`.
pub open spec fn edge_block_spec(ts: Seq<TokenModel>, p: int) -> Result<(Seq<EdgeModel>, int), ParseErrorModel> {
    match expect_spec(ts, p, TokenType::Edges) {
        Err(e) => Err(e),
        Ok(a) => match expect_spec(ts, a.1, TokenType::Colon) {
            Err(e) => Err(e),
            Ok(b) => edge_tail_spec(ts, b.1),
        },
    }
}

/// A whole program: node declarations, the edge block, the end of input,
/// and edges that point at declared nodes (an error there is reported at
/// the end of input).
pub open spec fn program_spec(ts: Seq<TokenModel>) -> Result<(GraphModel, int), ParseErrorModel> {
    match nodes_spec(ts, 0, Map::empty()) {
        Err(e) => Err(e),
        Ok(ns) => match edge_block_spec(ts, ns.1) {
            Err(e) => Err(e),
            Ok(es) => match expect_spec(ts, es.1, TokenType::Eof) {
                Err(e) => Err(e),
                Ok(f) => match endpoint_error(ns.0, es.0) {
                    Some(m) => Err(err_at(ts[f.1], m)),
                    None => Ok((GraphModel { nodes: ns.0, edges: es.0 }, f.1)),
                },
            },
        },
    }
}

// ---------------------------------------------------------------------
// The executable parser
// ---------------------------------------------------------------------

fn ttype_name_exec(t: TokenType) -> (res: &'static str)
    ensures
        res@ == ttype_name(t),
{
    match t {
        TokenType::Node => "Node",
        TokenType::Edges => "Edges",
        TokenType::End => "End",
        TokenType::Generative => "Generative",
        TokenType::External => "External",
        TokenType::Reject => "Reject",
        TokenType::Kind => "Kind",
        TokenType::SlotKeyword => "SlotKeyword",
        TokenType::ArrowSeq => "ArrowSeq",
        TokenType::ArrowBranch => "ArrowBranch",
        TokenType::ArrowMerge => "ArrowMerge",
        TokenType::Colon => "Colon",
        TokenType::Comma => "Comma",
        TokenType::LBracket => "LBracket",
        TokenType::RBracket => "RBracket",
        TokenType::At => "At",
        TokenType::Eq => "Eq",
        TokenType::Neq => "Neq",
        TokenType::Gt => "Gt",
        TokenType::Lt => "Lt",
        TokenType::Gte => "Gte",
        TokenType::Lte => "Lte",
        TokenType::Identifier => "Identifier",
        TokenType::String => "String",
        TokenType::Number => "Number",
        TokenType::Eof => "Eof",
    }
}

fn error_at(t: &Token, message: String) -> (res: LuckParseError)
    ensures
        res@ == err_at(t@, message@),
{
    LuckParseError { message, line: t.line, col: t.col }
}

pub(crate) fn debug_list_exec(opts: &Vec<&'static str>) -> (res: String)
    ensures
        res@ == debug_list(str_views(opts@)),
{
    let mut parts: Vec<String> = Vec::new();
    for i in 0..opts.len()
        invariant
            parts.len() == i,
            forall|j: int| 0 <= j < i ==> #[trigger] parts@[j]@ == str_debug(opts@[j]@),
    {
        parts.push(str_debug_string(opts[i]));
    }
    assert(string_views(parts@) =~= str_views(opts@).map_values(|o: Seq<char>| str_debug(o)));
    let mut r = owned("[");
    let inner = join_strings(&parts, ", ");
    append(&mut r, inner.as_str());
    append(&mut r, "]");
    r
}

pub open spec fn node_views(v: Seq<Node>) -> Seq<NodeModel> {
    v.map_values(|n: Node| n@)
}

pub struct Parser {
    tokens: Vec<Token>,
    pos: usize,
}

impl Parser {
    /// The token stream being parsed.
    pub closed spec fn stream(&self) -> Seq<TokenModel> {
        token_views(self.tokens@)
    }

    /// The position of the next token.
    pub closed spec fn at(&self) -> int {
        self.pos as int
    }

    pub closed spec fn wf(&self) -> bool {
        toks_wf(self.stream()) && self.pos < self.tokens.len()
    }

    /// A parser at the start of `tokens`, a stream that ends with `Eof`.
    pub fn new(tokens: Vec<Token>) -> (res: Parser)
        requires
            toks_wf(token_views(tokens@)),
        ensures
            res.wf(),
            res.stream() == token_views(tokens@),
            res.at() == 0,
    {
        Parser { tokens, pos: 0 }
    }

    fn peek(&self) -> (res: &Token)
        requires
            self.wf(),
        ensures
            res@ == self.stream()[self.at()],
    {
        &self.tokens[self.pos]
    }

    fn advance(&mut self) -> (res: Token)
        requires
            old(self).wf(),
        ensures
            final(self).wf(),
            final(self).stream() == old(self).stream(),
            res@ == old(self).stream()[old(self).at()],
            final(self).at() == adv(old(self).stream(), old(self).at()),
    {
        let tok = self.tokens[self.pos].duplicate();
        if tok.ttype != TokenType::Eof {
            proof {
                assert(self.stream()[self.pos as int] == self.tokens@[self.pos as int]@);
                assert(self.stream().last() == self.tokens@[self.tokens.len() - 1]@);
            }
            self.pos += 1;
        }
        tok
    }

    fn check(&self, ttype: TokenType) -> (res: bool)
        requires
            self.wf(),
        ensures
            res == (self.stream()[self.at()].ttype == ttype),
    {
        self.tokens[self.pos].ttype == ttype
    }

    fn err_here(&self, message: String) -> (res: LuckParseError)
        requires
            self.wf(),
        ensures
            res@ == err_at(self.stream()[self.at()], message@),
    {
        error_at(self.peek(), message)
    }

    fn expect(&mut self, ttype: TokenType) -> (res: Result<Token, LuckParseError>)
        requires
            old(self).wf(),
        ensures
            final(self).wf(),
            final(self).stream() == old(self).stream(),
            match res {
                Ok(t) => expect_spec(old(self).stream(), old(self).at(), ttype) == Ok::<(TokenModel, int), ParseErrorModel>((t@, final(self).at())),
                Err(e) => expect_spec(old(self).stream(), old(self).at(), ttype) == Err::<(TokenModel, int), ParseErrorModel>(e@),
            },
    {
        let tok = self.tokens[self.pos].duplicate();
        if tok.ttype != ttype {
            let mut m = owned("ожидался ");
            append(&mut m, ttype_name_exec(ttype));
            append(&mut m, ", получено ");
            append(&mut m, ttype_name_exec(tok.ttype));
            append(&mut m, "=");
            let shown = str_debug_string(tok.value.as_str());
            append(&mut m, shown.as_str());
            return Err(error_at(&tok, m));
        }
        Ok(self.advance())
    }

    fn parse_value(&mut self) -> (res: Result<String, LuckParseError>)
        requires
            old(self).wf(),
        ensures
            final(self).wf(),
            final(self).stream() == old(self).stream(),
            match res {
                Ok(v) => value_spec(old(self).stream(), old(self).at()) == Ok::<(Seq<char>, int), ParseErrorModel>((v@, final(self).at())),
                Err(e) => value_spec(old(self).stream(), old(self).at()) == Err::<(Seq<char>, int), ParseErrorModel>(e@),
            },
    {
        let tok = self.peek().duplicate();
        match tok.ttype {
            TokenType::String => {
                self.advance();
                Ok(crate::registry::quoted(tok.value.as_str()))
            },
            TokenType::Number => {
                self.advance();
                Ok(tok.value)
            },
            TokenType::At => {
                self.advance();
                match self.expect(TokenType::Identifier) {
                    Ok(r) => {
                        let mut v = String::new();
                        crate::text::push_char(&mut v, '@');
                        append(&mut v, r.value.as_str());
                        assert(v@ =~= seq!['@'] + r@.value);
                        Ok(v)
                    },
                    Err(e) => Err(e),
                }
            },
            _ => Err(error_at(&tok, owned("ожидалось значение (строка/число/@ссылка)"))),
        }
    }

    fn parse_condition(&mut self) -> (res: Result<SlotData, LuckParseError>)
        requires
            old(self).wf(),
        ensures
            final(self).wf(),
            final(self).stream() == old(self).stream(),
            match res {
                Ok(v) => condition_spec(old(self).stream(), old(self).at()) == Ok::<(SlotDataModel, int), ParseErrorModel>((v@, final(self).at())),
                Err(e) => condition_spec(old(self).stream(), old(self).at()) == Err::<(SlotDataModel, int), ParseErrorModel>(e@),
            },
    {
        let left = match self.expect(TokenType::Identifier) {
            Ok(t) => t,
            Err(e) => return Err(e),
        };
        let op_tok = self.advance();
        let op = match op_tok.ttype {
            TokenType::Eq => "=",
            TokenType::Neq => "!=",
            TokenType::Gt => ">",
            TokenType::Lt => "<",
            TokenType::Gte => ">=",
            TokenType::Lte => "<=",
            _ => {
                return Err(error_at(&op_tok, owned("ожидался оператор сравнения")));
            },
        };
        let right = match self.parse_value() {
            Ok(v) => v,
            Err(e) => return Err(e),
        };
        Ok(SlotData::Cond(left.value, owned(op), right))
    }

    fn parse_arg(&mut self) -> (res: Result<(String, String), LuckParseError>)
        requires
            old(self).wf(),
        ensures
            final(self).wf(),
            final(self).stream() == old(self).stream(),
            match res {
                Ok(a) => arg_spec(old(self).stream(), old(self).at()) == Ok::<((Seq<char>, Seq<char>), int), ParseErrorModel>(((a.0@, a.1@), final(self).at())),
                Err(e) => arg_spec(old(self).stream(), old(self).at()) == Err::<((Seq<char>, Seq<char>), int), ParseErrorModel>(e@),
            },
    {
        let name = match self.expect(TokenType::Identifier) {
            Ok(t) => t,
            Err(e) => return Err(e),
        };
        match self.expect(TokenType::Eq) {
            Ok(_) => {},
            Err(e) => return Err(e),
        }
        let value = match self.parse_value() {
            Ok(v) => v,
            Err(e) => return Err(e),
        };
        Ok((name.value, value))
    }

    fn parse_arg_list(&mut self) -> (res: Result<SlotData, LuckParseError>)
        requires
            old(self).wf(),
        ensures
            final(self).wf(),
            final(self).stream() == old(self).stream(),
            match res {
                Ok(v) => arg_list_spec(old(self).stream(), old(self).at()) == Ok::<(SlotDataModel, int), ParseErrorModel>((v@, final(self).at())),
                Err(e) => arg_list_spec(old(self).stream(), old(self).at()) == Err::<(SlotDataModel, int), ParseErrorModel>(e@),
            },
    {
        let ghost ts = self.stream();
        let first = match self.parse_arg() {
            Ok(a) => a,
            Err(e) => return Err(e),
        };
        let ghost start = self.at();
        let ghost a0 = (first.0@, first.1@);
        let mut args: Vec<(String, String)> = Vec::new();
        args.push(first);
        assert(pair_views(args@) =~= seq![a0]);
        while self.check(TokenType::Comma)
            invariant
                self.wf(),
                self.stream() == ts,
                ts == old(self).stream(),
                arg_spec(ts, old(self).at()) == Ok::<((Seq<char>, Seq<char>), int), ParseErrorModel>((a0, start)),
                more_args(ts, start, seq![a0]) == more_args(ts, self.at(), pair_views(args@)),
            decreases ts.len() - self.at(),
        {
            let ghost p = self.at();
            self.advance();
            let a = match self.parse_arg() {
                Ok(a) => a,
                Err(e) => return Err(e),
            };
            proof {
                lemma_arg_advances(ts, p + 1);
            }
            let ghost before = pair_views(args@);
            args.push(a);
            assert(pair_views(args@) =~= before.push((a.0@, a.1@)));
        }
        Ok(SlotData::Args(args))
    }

    fn parse_slot_value(&mut self, slot: &Slot) -> (res: Result<SlotData, LuckParseError>)
        requires
            old(self).wf(),
        ensures
            final(self).wf(),
            final(self).stream() == old(self).stream(),
            match res {
                Ok(v) => slot_value_spec(old(self).stream(), old(self).at(), slot@) == Ok::<(SlotDataModel, int), ParseErrorModel>((v@, final(self).at())),
                Err(e) => slot_value_spec(old(self).stream(), old(self).at(), slot@) == Err::<(SlotDataModel, int), ParseErrorModel>(e@),
            },
    {
        match &slot.value {
            SlotValue::String => match self.expect(TokenType::String) {
                Ok(t) => Ok(SlotData::Str(t.value)),
                Err(e) => Err(e),
            },
            SlotValue::Ident => match self.expect(TokenType::Identifier) {
                Ok(t) => Ok(SlotData::Ident(t.value)),
                Err(e) => Err(e),
            },
            SlotValue::Condition => self.parse_condition(),
            SlotValue::Args => self.parse_arg_list(),
            SlotValue::Enum(options) => {
                let tok = self.advance();
                proof {
                    assert(str_views(options@) =~= options@.map_values(|o: &'static str| o@));
                }
                if !contains_name(options, tok.value.as_str()) {
                    let mut m = owned("ожидалось одно из ");
                    let shown = debug_list_exec(options);
                    append(&mut m, shown.as_str());
                    return Err(error_at(&tok, m));
                }
                Ok(SlotData::Ident(tok.value))
            },
        }
    }

    fn parse_body(&mut self, kind: Kind) -> (res: Result<KeyedMap<SlotData>, LuckParseError>)
        requires
            old(self).wf(),
        ensures
            final(self).wf(),
            final(self).stream() == old(self).stream(),
            match res {
                Ok(m) => body_spec(old(self).stream(), old(self).at(), kind, 0, Map::empty()) == Ok::<(Map<Seq<char>, SlotDataModel>, int), ParseErrorModel>((m.deep(), final(self).at()))
                    && slots_filled(kind, m.deep()),
                Err(e) => body_spec(old(self).stream(), old(self).at(), kind, 0, Map::empty()) == Err::<(Map<Seq<char>, SlotDataModel>, int), ParseErrorModel>(e@),
            },
    {
        let ghost ts = self.stream();
        let ghost start = self.at();
        let entry = spec(kind);
        let mut slots: KeyedMap<SlotData> = KeyedMap::new();
        assert(slots.deep() =~= Map::<Seq<char>, SlotDataModel>::empty());
        for i in 0..entry.slots.len()
            invariant
                self.wf(),
                self.stream() == ts,
                entry@ == kind_spec(kind),
                ts == old(self).stream(),
                start == old(self).at(),
                body_spec(ts, start, kind, 0, Map::empty()) == body_spec(ts, self.at(), kind, i as int, slots.deep()),
                forall|j: int| 0 <= j < i ==> slots.deep().dom().contains(#[trigger] kind_slots(kind)[j].name),
        {
            let slot = &entry.slots[i];
            proof {
                assert(entry@.slots[i as int] == slot@);
            }
            let kw_tok = self.advance();
            if !str_eq(kw_tok.value.as_str(), slot.keyword) {
                let mut m = owned("в узле ");
                append(&mut m, kind.as_str());
                append(&mut m, " ожидалось ключевое слово '");
                append(&mut m, slot.keyword);
                append(&mut m, "'");
                return Err(error_at(&kw_tok, m));
            }
            let v = match self.parse_slot_value(slot) {
                Ok(v) => v,
                Err(e) => return Err(e),
            };
            let ghost before = slots;
            let ghost vv = v@;
            slots.insert(owned(slot.name), v);
            proof {
                lemma_deep_insert(before, slots, slot.name@, slots.at(slot.name@));
            }
        }
        Ok(slots)
    }

    fn parse_node_decl(&mut self) -> (res: Result<Node, LuckParseError>)
        requires
            old(self).wf(),
        ensures
            final(self).wf(),
            final(self).stream() == old(self).stream(),
            match res {
                Ok(n) => node_decl_spec(old(self).stream(), old(self).at()) == Ok::<(NodeModel, int), ParseErrorModel>((n@, final(self).at()))
                    && slots_filled(n@.kind, n@.slots),
                Err(e) => node_decl_spec(old(self).stream(), old(self).at()) == Err::<(NodeModel, int), ParseErrorModel>(e@),
            },
    {
        reveal(node_decl_spec);
        match self.expect(TokenType::Node) {
            Ok(_) => {},
            Err(e) => return Err(e),
        }
        let node_id_tok = match self.expect(TokenType::Identifier) {
            Ok(t) => t,
            Err(e) => return Err(e),
        };
        match self.expect(TokenType::Colon) {
            Ok(_) => {},
            Err(e) => return Err(e),
        }
        let kind_tok = match self.expect(TokenType::Kind) {
            Ok(t) => t,
            Err(e) => return Err(e),
        };
        let kind = match Kind::parse(kind_tok.value.as_str()) {
            Some(k) => k,
            None => {
                let mut m = owned("неизвестный kind '");
                append(&mut m, kind_tok.value.as_str());
                append(&mut m, "'");
                return Err(error_at(&kind_tok, m));
            },
        };
        match self.expect(TokenType::LBracket) {
            Ok(_) => {},
            Err(e) => return Err(e),
        }
        let subtype_tok = self.advance();
        let subtype = match Subtype::parse(subtype_tok.value.as_str()) {
            Some(t) => t,
            None => {
                let mut m = owned("неизвестный subtype '");
                append(&mut m, subtype_tok.value.as_str());
                append(&mut m, "'");
                return Err(error_at(&subtype_tok, m));
            },
        };
        match self.expect(TokenType::RBracket) {
            Ok(_) => {},
            Err(e) => return Err(e),
        }
        match validate_kind_subtype(kind, subtype) {
            Ok(()) => {},
            Err(m) => return Err(error_at(&kind_tok, m)),
        }
        let slots = match self.parse_body(kind) {
            Ok(m) => m,
            Err(e) => return Err(e),
        };
        match self.expect(TokenType::End) {
            Ok(_) => {},
            Err(e) => return Err(e),
        }
        Ok(Node::new(node_id_tok.value, subtype, kind, slots))
    }

    /// A sequence of node declarations without an edge block, as the
    /// output of a SPAWN node is.
    pub fn parse_fragment(&mut self) -> (res: Result<Vec<Node>, LuckParseError>)
        requires
            old(self).wf(),
        ensures
            final(self).wf(),
            final(self).stream() == old(self).stream(),
            match res {
                Ok(v) => fragment_spec(old(self).stream(), old(self).at(), Seq::empty()) == Ok::<(Seq<NodeModel>, int), ParseErrorModel>((node_views(v@), final(self).at()))
                    && forall|i: int| 0 <= i < v@.len() ==> slots_filled(#[trigger] v@[i]@.kind, v@[i]@.slots),
                Err(e) => fragment_spec(old(self).stream(), old(self).at(), Seq::empty()) == Err::<(Seq<NodeModel>, int), ParseErrorModel>(e@),
            },
    {
        let ghost ts = self.stream();
        let ghost start = self.at();
        let mut nodes: Vec<Node> = Vec::new();
        assert(node_views(nodes@) =~= Seq::<NodeModel>::empty());
        while self.check(TokenType::Node)
            invariant
                self.wf(),
                self.stream() == ts,
                ts == old(self).stream(),
                start == old(self).at(),
                fragment_spec(ts, start, Seq::empty()) == fragment_spec(ts, self.at(), node_views(nodes@)),
                forall|i: int| 0 <= i < nodes@.len() ==> slots_filled(#[trigger] nodes@[i]@.kind, nodes@[i]@.slots),
            decreases ts.len() - self.at(),
        {
            let ghost p = self.at();
            let n = match self.parse_node_decl() {
                Ok(n) => n,
                Err(e) => return Err(e),
            };
            proof {
                lemma_node_decl_advances(ts, p);
            }
            let ghost before = node_views(nodes@);
            let ghost nv = n@;
            nodes.push(n);
            assert(node_views(nodes@) =~= before.push(nv));
        }
        Ok(nodes)
    }

    fn parse_edge_decl(&mut self) -> (res: Result<Edge, LuckParseError>)
        requires
            old(self).wf(),
        ensures
            final(self).wf(),
            final(self).stream() == old(self).stream(),
            match res {
                Ok(d) => edge_decl_spec(old(self).stream(), old(self).at()) == Ok::<(EdgeModel, int), ParseErrorModel>((d@, final(self).at())),
                Err(e) => edge_decl_spec(old(self).stream(), old(self).at()) == Err::<(EdgeModel, int), ParseErrorModel>(e@),
            },
    {
        let src = match self.expect(TokenType::Identifier) {
            Ok(t) => t,
            Err(e) => return Err(e),
        };
        let op_tok = self.advance();
        let edge_type = match op_tok.ttype {
            TokenType::ArrowSeq => EdgeType::Sequence,
            TokenType::ArrowBranch => EdgeType::Branch,
            TokenType::ArrowMerge => EdgeType::Merge,
            _ => {
                return Err(error_at(&op_tok, owned("ожидался оператор ребра (-> | => | ~>)")));
            },
        };
        let tgt = match self.expect(TokenType::Identifier) {
            Ok(t) => t,
            Err(e) => return Err(e),
        };
        let mut label: Option<String> = None;
        if self.check(TokenType::LBracket) {
            self.advance();
            let label_tok = match self.expect(TokenType::Identifier) {
                Ok(t) => t,
                Err(e) => return Err(e),
            };
            label = Some(label_tok.value);
            match self.expect(TokenType::RBracket) {
                Ok(_) => {},
                Err(e) => return Err(e),
            }
        }
        Ok(Edge { source: src.value, target: tgt.value, edge_type, label })
    }

    fn parse_edge_block(&mut self, graph: &mut IntentGraph) -> (res: Result<(), LuckParseError>)
        requires
            old(self).wf(),
        ensures
            final(self).wf(),
            final(self).stream() == old(self).stream(),
            final(graph)@.nodes == old(graph)@.nodes,
            match res {
                Ok(()) => edge_block_spec(old(self).stream(), old(self).at()) is Ok
                    && edge_block_spec(old(self).stream(), old(self).at())->Ok_0 == (
                    final(graph)@.edges.skip(old(graph)@.edges.len() as int),
                    final(self).at(),
                ) && final(graph)@.edges.take(old(graph)@.edges.len() as int) == old(graph)@.edges,
                Err(e) => edge_block_spec(old(self).stream(), old(self).at()) == Err::<(Seq<EdgeModel>, int), ParseErrorModel>(e@),
            },
    {
        let ghost ts = self.stream();
        let ghost g0 = graph@.edges;
        match self.expect(TokenType::Edges) {
            Ok(_) => {},
            Err(e) => return Err(e),
        }
        match self.expect(TokenType::Colon) {
            Ok(_) => {},
            Err(e) => return Err(e),
        }
        let ghost start = self.at();
        assert(edge_block_spec(ts, old(self).at()) == edge_tail_spec(ts, start));
        assert(graph@.edges.skip(g0.len() as int) =~= Seq::<EdgeModel>::empty());
        while self.check(TokenType::Identifier)
            invariant
                self.wf(),
                self.stream() == ts,
                graph@.nodes == old(graph)@.nodes,
                ts == old(self).stream(),
                g0 == old(graph)@.edges,
                edge_block_spec(ts, old(self).at()) == edge_tail_spec(ts, start),
                graph@.edges.len() >= g0.len(),
                graph@.edges.take(g0.len() as int) == g0,
                edges_spec(ts, start, Seq::empty()) == edges_spec(ts, self.at(), graph@.edges.skip(g0.len() as int)),
            decreases ts.len() - self.at(),
        {
            let ghost p = self.at();
            let d = match self.parse_edge_decl() {
                Ok(d) => d,
                Err(e) => return Err(e),
            };
            proof {
                lemma_edge_decl_advances(ts, p);
            }
            let ghost before = graph@.edges;
            let ghost dv = d@;
            graph.add_edge(d);
            proof {
                assert(graph@.edges.skip(g0.len() as int) =~= before.skip(g0.len() as int).push(dv));
                assert(graph@.edges.take(g0.len() as int) =~= before.take(g0.len() as int));
            }
        }
        match self.expect(TokenType::End) {
            Ok(_) => {},
            Err(e) => return Err(e),
        }
        Ok(())
    }

    /// A whole program: node declarations, then the edge block.
    pub fn parse_program(&mut self) -> (res: Result<IntentGraph, LuckParseError>)
        requires
            old(self).wf(),
            old(self).at() == 0,
        ensures
            final(self).wf(),
            final(self).stream() == old(self).stream(),
            match res {
                Ok(g) => program_spec(old(self).stream()) == Ok::<(GraphModel, int), ParseErrorModel>((g@, final(self).at()))
                    && graph_wf(g@) && graph_keyed(g@),
                Err(e) => program_spec(old(self).stream()) == Err::<(GraphModel, int), ParseErrorModel>(e@),
            },
    {
        let ghost ts = self.stream();
        let mut graph = IntentGraph::new();
        while self.check(TokenType::Node)
            invariant
                self.wf(),
                self.stream() == ts,
                graph@.edges == Seq::<EdgeModel>::empty(),
                ts == old(self).stream(),
                nodes_spec(ts, 0, Map::empty()) == nodes_spec(ts, self.at(), graph@.nodes),
                graph_wf(graph@),
                graph_keyed(graph@),
            decreases ts.len() - self.at(),
        {
            let ghost p = self.at();
            let node = match self.parse_node_decl() {
                Ok(n) => n,
                Err(e) => return Err(e),
            };
            proof {
                lemma_node_decl_advances(ts, p);
            }
            match graph.add_node(node) {
                Ok(()) => {},
                Err(m) => return Err(self.err_here(m)),
            }
        }
        let ghost nodes_end = self.at();
        match self.parse_edge_block(&mut graph) {
            Ok(()) => {},
            Err(e) => return Err(e),
        }
        proof {
            assert(graph@.edges.skip(0) =~= graph@.edges);
        }
        match self.expect(TokenType::Eof) {
            Ok(_) => {},
            Err(e) => return Err(e),
        }
        match graph.validate_edge_endpoints() {
            Ok(()) => {},
            Err(m) => return Err(self.err_here(m)),
        }
        Ok(graph)
    }
}

/// What parsing a source gives: its token stream read as a program.
pub open spec fn parse_spec(s: Seq<char>) -> Result<GraphModel, ParseErrorModel> {
    match lex_spec(s) {
        Err(e) => Err(lex_to_parse(e)),
        Ok(ts) => match program_spec(ts) {
            Ok(r) => Ok(r.0),
            Err(e) => Err(e),
        },
    }
}

/// What parsing a fragment gives: its token stream read as node
/// declarations.
pub open spec fn fragment_parse_spec(s: Seq<char>) -> Result<Seq<NodeModel>, ParseErrorModel> {
    match lex_spec(s) {
        Err(e) => Err(lex_to_parse(e)),
        Ok(ts) => match fragment_spec(ts, 0, Seq::empty()) {
            Ok(r) => Ok(r.0),
            Err(e) => Err(e),
        },
    }
}

/// Parses a Luck program.
pub fn parse(source: &str) -> (res: Result<IntentGraph, LuckParseError>)
    requires
        source@.len() < usize::MAX,
    ensures
        match res {
            Ok(g) => parse_spec(source@) == Ok::<GraphModel, ParseErrorModel>(g@) && graph_wf(g@) && graph_keyed(g@),
            Err(e) => parse_spec(source@) == Err::<GraphModel, ParseErrorModel>(e@),
        },
{
    let tokens = match tokenize(source) {
        Ok(t) => t,
        Err(e) => return Err(LuckParseError::from_lex(e)),
    };
    proof {
        crate::lexer::lemma_lex_ends_with_eof(source@, 0);
    }
    let mut p = Parser::new(tokens);
    p.parse_program()
}

/// Parses node declarations without an edge block.
pub fn parse_fragment(source: &str) -> (res: Result<Vec<Node>, LuckParseError>)
    requires
        source@.len() < usize::MAX,
    ensures
        match res {
            Ok(v) => fragment_parse_spec(source@) == Ok::<Seq<NodeModel>, ParseErrorModel>(node_views(v@))
                && forall|i: int| 0 <= i < v@.len() ==> slots_filled(#[trigger] v@[i]@.kind, v@[i]@.slots),
            Err(e) => fragment_parse_spec(source@) == Err::<Seq<NodeModel>, ParseErrorModel>(e@),
        },
{
    let tokens = match tokenize(source) {
        Ok(t) => t,
        Err(e) => return Err(LuckParseError::from_lex(e)),
    };
    proof {
        crate::lexer::lemma_lex_ends_with_eof(source@, 0);
    }
    let mut p = Parser::new(tokens);
    p.parse_fragment()
}

} // verus!
