//! The presentation syntax: a second, tagged surface form of the intent
//! graph, in bijection with the canonical form.
//!
//! The generator (`node_to_element`) and the reader (`element_to_node`)
//! walk the same registry slot list in the same order, so a node kind added
//! to the registry gets its presentation for free. The subtype of a node is
//! not written: the registry derives it from the kind.
//!
//! The reader of the text form is deliberately narrow: elements,
//! attributes, text and self-closing tags, exactly what the renderer
//! writes; no namespaces, CDATA, DOCTYPE or comments.

use vstd::prelude::*;
use crate::keyed_map::{KeyedMap, keys_sorted, lemma_index_of_unique, lemma_sorted_elements, sorted_elements};
use crate::parser::{
    debug_list, duplicate_node_error, endpoint_error, new_node, pair_views, slots_filled, Edge, EdgeModel,
    EdgeType, GraphModel, IntentGraph, Node, NodeModel, SlotData, SlotDataModel,
};
use crate::registry::{
    kind_from_name, kind_name, kind_slots, kind_spec, kind_subtype, spec, str_views, Kind, SlotModel, SlotValue,
    SlotValueModel,
};
use crate::text::{
    append, ascii_lower_char, ascii_lowercase, decimal, is_alphanumeric, is_whitespace, join, owned, push_char,
    alnum_char, starts_with_at, to_chars, to_uppercase, upper_of, usize_to_string, ws_char,
};

verus! {

/// An element of the presentation: a tag, attributes in order, child
/// elements and an optional text.
#[derive(Debug, Default)]
pub struct Element {
    pub tag: String,
    pub attrs: Vec<(String, String)>,
    pub children: Vec<Element>,
    pub text: Option<String>,
}

pub struct ElementModel {
    pub tag: Seq<char>,
    pub attrs: Seq<(Seq<char>, Seq<char>)>,
    pub children: Seq<ElementModel>,
    pub text: Option<Seq<char>>,
}

pub open spec fn opt_view(o: Option<String>) -> Option<Seq<char>> {
    match o {
        Some(s) => Some(s@),
        None => None,
    }
}

pub open spec fn element_view(e: Element) -> ElementModel
    decreases e,
{
    ElementModel {
        tag: e.tag@,
        attrs: pair_views(e.attrs@),
        children: Seq::new(
            e.children.len() as nat,
            |i: int|
                if 0 <= i < e.children.len() {
                    element_view(e.children@[i])
                } else {
                    arbitrary()
                },
        ),
        text: opt_view(e.text),
    }
}

impl View for Element {
    type V = ElementModel;

    open spec fn view(&self) -> ElementModel {
        element_view(*self)
    }
}

pub open spec fn element_views(v: Seq<Element>) -> Seq<ElementModel> {
    v.map_values(|e: Element| e@)
}

/// The error of reading a presentation: its message.
#[derive(Debug)]
pub struct PresentationError(pub String);

/// How a presentation is laid out. The layout takes no part in the
/// bijection: both read back to the same graph.
#[derive(Debug, Clone, Copy, PartialEq, Eq, Structural)]
pub enum Style {
    /// Indented, one element per line.
    Expanded,
    /// On one line.
    Compact,
}

// ---------------------------------------------------------------------
// Looking things up in an element
// ---------------------------------------------------------------------

/// The value of the first attribute named `k`.
pub open spec fn first_attr(attrs: Seq<(Seq<char>, Seq<char>)>, k: Seq<char>) -> Option<Seq<char>>
    decreases attrs.len(),
{
    if attrs.len() == 0 {
        None
    } else if attrs[0].0 == k {
        Some(attrs[0].1)
    } else {
        first_attr(attrs.drop_first(), k)
    }
}

/// The first child tagged `tag`.
pub open spec fn first_child(children: Seq<ElementModel>, tag: Seq<char>) -> Option<ElementModel>
    decreases children.len(),
{
    if children.len() == 0 {
        None
    } else if children[0].tag == tag {
        Some(children[0])
    } else {
        first_child(children.drop_first(), tag)
    }
}

/// An attribute's value, or the empty string when there is none.
pub open spec fn attr_or_empty(attrs: Seq<(Seq<char>, Seq<char>)>, k: Seq<char>) -> Seq<char> {
    match first_attr(attrs, k) {
        Some(v) => v,
        None => Seq::empty(),
    }
}

pub open spec fn text_or_empty(t: Option<Seq<char>>) -> Seq<char> {
    match t {
        Some(v) => v,
        None => Seq::empty(),
    }
}

impl Element {
    fn new(tag: String) -> (res: Element)
        ensures
            res@ == (ElementModel { tag: tag@, attrs: Seq::empty(), children: Seq::empty(), text: None }),
            res.tag == tag,
            res.attrs.len() == 0,
            res.children.len() == 0,
            res.text is None,
    {
        let res = Element { tag, attrs: Vec::new(), children: Vec::new(), text: None };
        assert(res@.attrs =~= Seq::<(Seq<char>, Seq<char>)>::empty());
        assert(res@.children =~= Seq::<ElementModel>::empty());
        res
    }

    fn attr(self, k: &str, v: String) -> (res: Element)
        ensures
            res@ == (ElementModel { attrs: self@.attrs.push((k@, v@)), ..self@ }),
    {
        let mut e = self;
        let ghost before = e@;
        e.attrs.push((owned(k), v));
        assert(e@.attrs =~= before.attrs.push((k@, v@)));
        assert(e@.children =~= before.children);
        e
    }

    fn get_attr(&self, k: &str) -> (res: Option<&String>)
        ensures
            match res {
                Some(v) => first_attr(self@.attrs, k@) == Some(v@),
                None => first_attr(self@.attrs, k@) is None,
            },
    {
        let ghost a = self@.attrs;
        assert(a.skip(0) =~= a);
        let mut i: usize = 0;
        while i < self.attrs.len()
            invariant
                a == self@.attrs,
                a == pair_views(self.attrs@),
                i <= a.len(),
                first_attr(a, k@) == first_attr(a.skip(i as int), k@),
            decreases self.attrs.len() - i,
        {
            assert(a.skip(i as int)[0] == a[i as int]);
            assert(a.skip(i as int).drop_first() =~= a.skip(i + 1));
            if crate::text::str_eq(self.attrs[i].0.as_str(), k) {
                return Some(&self.attrs[i].1);
            }
            i += 1;
        }
        None
    }

    fn find(&self, tag: &str) -> (res: Option<&Element>)
        ensures
            match res {
                Some(c) => first_child(self@.children, tag@) == Some(c@),
                None => first_child(self@.children, tag@) is None,
            },
    {
        let ghost cs = self@.children;
        assert(cs.skip(0) =~= cs);
        let mut i: usize = 0;
        while i < self.children.len()
            invariant
                cs == self@.children,
                cs.len() == self.children.len(),
                i <= cs.len(),
                first_child(cs, tag@) == first_child(cs.skip(i as int), tag@),
            decreases self.children.len() - i,
        {
            assert(cs.skip(i as int)[0] == cs[i as int]);
            assert(cs[i as int] == self.children@[i as int]@);
            assert(cs.skip(i as int).drop_first() =~= cs.skip(i + 1));
            if crate::text::str_eq(self.children[i].tag.as_str(), tag) {
                return Some(&self.children[i]);
            }
            i += 1;
        }
        None
    }
}

// ---------------------------------------------------------------------
// Canonical form -> presentation
// ---------------------------------------------------------------------

pub open spec fn text_element(tag: Seq<char>, t: Seq<char>) -> ElementModel {
    ElementModel { tag, attrs: Seq::empty(), children: Seq::empty(), text: Some(t) }
}

pub open spec fn arg_element(a: (Seq<char>, Seq<char>)) -> ElementModel {
    ElementModel { tag: "arg"@, attrs: seq![("name"@, a.0), ("value"@, a.1)], children: Seq::empty(), text: None }
}

/// The element of one slot: strings and identifiers as text, a condition
/// as `field`/`op`/`value` attributes, arguments as `arg` children.
pub open spec fn slot_element(name: Seq<char>, d: SlotDataModel) -> ElementModel {
    match d {
        SlotDataModel::Str(v) => text_element(name, v),
        SlotDataModel::Ident(v) => text_element(name, v),
        SlotDataModel::Cond(f, o, v) => ElementModel {
            tag: name,
            attrs: seq![("field"@, f), ("op"@, o), ("value"@, v)],
            children: Seq::empty(),
            text: None,
        },
        SlotDataModel::Args(p) => ElementModel {
            tag: name,
            attrs: Seq::empty(),
            children: p.map_values(|a: (Seq<char>, Seq<char>)| arg_element(a)),
            text: None,
        },
    }
}

/// The tag of a kind: its name in lower case.
pub open spec fn kind_tag(k: Kind) -> Seq<char> {
    kind_name(k).map_values(|c: char| ascii_lower_char(c))
}

/// The element of a node: the kind as tag, the id as attribute, one child
/// per registry slot in registry order.
pub open spec fn node_element(n: NodeModel) -> ElementModel {
    ElementModel {
        tag: kind_tag(n.kind),
        attrs: seq![("id"@, n.node_id)],
        children: kind_slots(n.kind).map_values(|s: SlotModel| slot_element(s.name, n.slots[s.name])),
        text: None,
    }
}

fn slot_to_element(name: &str, value: &SlotData) -> (res: Element)
    ensures
        res@ == slot_element(name@, value@),
{
    match value {
        SlotData::Str(v) | SlotData::Ident(v) => {
            let mut child = Element::new(owned(name));
            child.text = Some(v.clone());
            assert(child@.attrs =~= Seq::<(Seq<char>, Seq<char>)>::empty());
            assert(child@.children =~= Seq::<ElementModel>::empty());
            child
        },
        SlotData::Cond(field, op, val) => {
            let child = Element::new(owned(name));
            let child = child.attr("field", field.clone());
            let child = child.attr("op", op.clone());
            let child = child.attr("value", val.clone());
            assert(child@.attrs =~= seq![("field"@, field@), ("op"@, op@), ("value"@, val@)]);
            child
        },
        SlotData::Args(pairs) => {
            let mut child = Element::new(owned(name));
            let ghost p = pair_views(pairs@);
            for i in 0..pairs.len()
                invariant
                    p == pair_views(pairs@),
                    child.tag@ == name@,
                    pair_views(child.attrs@) == Seq::<(Seq<char>, Seq<char>)>::empty(),
                    child.text is None,
                    child.children.len() == i,
                    forall|j: int| 0 <= j < i ==> (#[trigger] child.children@[j])@ == arg_element(p[j]),
            {
                let arg = Element::new(owned("arg"));
                let arg = arg.attr("name", pairs[i].0.clone());
                let arg = arg.attr("value", pairs[i].1.clone());
                assert(arg@.attrs =~= seq![("name"@, p[i as int].0), ("value"@, p[i as int].1)]);
                child.children.push(arg);
            }
            assert(child@.children =~= p.map_values(|a: (Seq<char>, Seq<char>)| arg_element(a)));
            child
        },
    }
}

/// A node as an element. The slot children follow the registry's slot
/// list, the same list the canonical parser walks.
pub fn node_to_element(node: &Node) -> (res: Element)
    requires
        slots_filled(node.kind, node@.slots),
    ensures
        res@ == node_element(node@),
{
    let entry = spec(node.kind);
    let ghost slots = kind_slots(node.kind);
    let mut children: Vec<Element> = Vec::new();
    for i in 0..entry.slots.len()
        invariant
            entry@ == kind_spec(node.kind),
            slots == kind_slots(node.kind),
            slots_filled(node.kind, node@.slots),
            children.len() == i,
            forall|j: int| 0 <= j < i ==> (#[trigger] children@[j])@ == slot_element(slots[j].name, node@.slots[slots[j].name]),
    {
        let slot = &entry.slots[i];
        proof {
            assert(entry@.slots[i as int] == slot@);
            assert(node@.slots.dom().contains(slots[i as int].name));
            assert(node.slots.has(slot.name@));
        }
        let value = node.slots.get(slot.name).unwrap();
        children.push(slot_to_element(slot.name, value));
    }
    let tag = ascii_lowercase(node.kind.as_str());
    let el = Element { tag, attrs: Vec::new(), children, text: None };
    let el = el.attr("id", node.node_id.clone());
    proof {
        assert(el@.attrs =~= seq![("id"@, node@.node_id)]);
        assert(el@.children =~= node_element(node@).children);
    }
    el
}

pub open spec fn edge_type_name(t: EdgeType) -> Seq<char> {
    match t {
        EdgeType::Sequence => "seq"@,
        EdgeType::Branch => "branch"@,
        EdgeType::Merge => "merge"@,
    }
}

pub open spec fn edge_element(e: EdgeModel) -> ElementModel {
    ElementModel {
        tag: "edge"@,
        attrs: seq![("from"@, e.source), ("to"@, e.target), ("type"@, edge_type_name(e.edge_type))] + match e.label {
            Some(l) => seq![("label"@, l)],
            None => Seq::empty(),
        },
        children: Seq::empty(),
        text: None,
    }
}

/// The element of a graph: `luck` holding `nodes` (the nodes in ascending
/// id order) and `edges` (the edges in order).
pub open spec fn graph_element(g: GraphModel) -> ElementModel {
    ElementModel {
        tag: "luck"@,
        attrs: Seq::empty(),
        children: seq![
            ElementModel {
                tag: "nodes"@,
                attrs: Seq::empty(),
                children: sorted_elements(g.nodes.dom()).map_values(|k: Seq<char>| node_element(g.nodes[k])),
                text: None,
            },
            ElementModel {
                tag: "edges"@,
                attrs: Seq::empty(),
                children: g.edges.map_values(|e: EdgeModel| edge_element(e)),
                text: None,
            },
        ],
        text: None,
    }
}

fn edge_to_element(e: &Edge) -> (res: Element)
    ensures
        res@ == edge_element(e@),
{
    let etype = match e.edge_type {
        EdgeType::Sequence => "seq",
        EdgeType::Branch => "branch",
        EdgeType::Merge => "merge",
    };
    let el = Element::new(owned("edge"));
    let el = el.attr("from", e.source.clone());
    let el = el.attr("to", e.target.clone());
    let el = el.attr("type", owned(etype));
    let el = match &e.label {
        Some(l) => el.attr("label", l.clone()),
        None => el,
    };
    assert(el@.attrs =~= edge_element(e@).attrs);
    el
}

pub fn graph_to_element(graph: &IntentGraph) -> (res: Element)
    requires
        crate::parser::graph_wf(graph@),
    ensures
        res@ == graph_element(graph@),
{
    let ghost g = graph@;
    graph.nodes.lemma_sorted();
    let ghost ks = graph.nodes.key_seq();
    proof {
        lemma_sorted_elements(ks, g.nodes.dom());
    }
    let mut nodes_el = Element::new(owned("nodes"));
    let n = graph.nodes.len();
    for i in 0..n
        invariant
            g == graph@,
            ks == graph.nodes.key_seq(),
            keys_sorted(ks),
            n == ks.len(),
            crate::parser::graph_wf(g),
            nodes_el.tag@ == "nodes"@,
            pair_views(nodes_el.attrs@) == Seq::<(Seq<char>, Seq<char>)>::empty(),
            nodes_el.text is None,
            nodes_el.children.len() == i,
            forall|j: int| 0 <= j < i ==> (#[trigger] nodes_el.children@[j])@ == node_element(g.nodes[ks[j]]),
    {
        let node = graph.nodes.value_at(i);
        proof {
            lemma_index_of_unique(ks, ks[i as int], i as int);
            assert(g.nodes.dom().contains(ks[i as int]));
            assert(node@ == g.nodes[ks[i as int]]);
        }
        nodes_el.children.push(node_to_element(node));
    }
    assert(nodes_el@.children =~= ks.map_values(|k: Seq<char>| node_element(g.nodes[k])));
    let mut edges_el = Element::new(owned("edges"));
    for i in 0..graph.edges.len()
        invariant
            g == graph@,
            edges_el.tag@ == "edges"@,
            pair_views(edges_el.attrs@) == Seq::<(Seq<char>, Seq<char>)>::empty(),
            edges_el.text is None,
            edges_el.children.len() == i,
            forall|j: int| 0 <= j < i ==> (#[trigger] edges_el.children@[j])@ == edge_element(g.edges[j]),
    {
        assert(g.edges[i as int] == graph.edges@[i as int]@);
        edges_el.children.push(edge_to_element(&graph.edges[i]));
    }
    assert(edges_el@.children =~= g.edges.map_values(|e: EdgeModel| edge_element(e)));
    let mut root = Element::new(owned("luck"));
    let ghost ne = nodes_el@;
    let ghost ee = edges_el@;
    root.children.push(nodes_el);
    root.children.push(edges_el);
    assert(root@.children =~= seq![ne, ee]);
    root
}

// ---------------------------------------------------------------------
// Rendering (the layout is no part of the bijection)
// ---------------------------------------------------------------------

pub open spec fn esc_char(c: char) -> Seq<char> {
    if c == '&' {
        "&amp;"@
    } else if c == '<' {
        "&lt;"@
    } else if c == '>' {
        "&gt;"@
    } else if c == '"' {
        "&quot;"@
    } else {
        seq![c]
    }
}

/// The text with `&`, `<`, `>` and `"` written as entities.
pub open spec fn esc(s: Seq<char>) -> Seq<char>
    decreases s.len(),
{
    if s.len() == 0 {
        Seq::empty()
    } else {
        esc(s.drop_last()) + esc_char(s.last())
    }
}

/// ` name="value"` for each attribute, values escaped.
pub open spec fn attrs_text(a: Seq<(Seq<char>, Seq<char>)>) -> Seq<char>
    decreases a.len(),
{
    if a.len() == 0 {
        Seq::empty()
    } else {
        attrs_text(a.drop_last()) + " "@ + a.last().0 + "=\""@ + esc(a.last().1) + "\""@
    }
}

/// The parts one after the other.
pub open spec fn concat(parts: Seq<Seq<char>>) -> Seq<char>
    decreases parts.len(),
{
    if parts.len() == 0 {
        Seq::empty()
    } else {
        concat(parts.drop_last()) + parts.last()
    }
}

/// The one-line layout: `<tag attrs />` for an element with neither
/// children nor text, otherwise the text and then the children between the
/// opening and the closing tag.
pub open spec fn compact(e: ElementModel) -> Seq<char>
    decreases e,
{
    let open = "<"@ + e.tag + attrs_text(e.attrs);
    if e.children.len() == 0 && e.text is None {
        open + " />"@
    } else {
        open + ">"@ + esc(text_or_empty(e.text)) + concat(compact_all(e.children)) + "</"@ + e.tag + ">"@
    }
}

/// The one-line layouts of the elements.
pub open spec fn compact_all(cs: Seq<ElementModel>) -> Seq<Seq<char>>
    decreases cs,
{
    Seq::new(
        cs.len(),
        |i: int|
            if 0 <= i < cs.len() {
                compact(cs[i])
            } else {
                arbitrary()
            },
    )
}

/// The indented layout at indentation `pad`: a childless element on one
/// line (`<tag attrs>text</tag>`, or `<tag attrs/>` without text); an
/// element with children on its own lines, the children one per line and
/// two spaces deeper (its text is not written).
pub open spec fn expanded(e: ElementModel, pad: Seq<char>) -> Seq<char>
    decreases e,
{
    let head = pad + "<"@ + e.tag + attrs_text(e.attrs);
    if e.children.len() == 0 {
        match e.text {
            Some(t) => head + ">"@ + esc(t) + "</"@ + e.tag + ">"@,
            None => head + "/>"@,
        }
    } else {
        head + ">\n"@ + join(expanded_all(e.children, pad + "  "@), "\n"@) + "\n"@ + pad + "</"@ + e.tag + ">"@
    }
}

/// The indented layouts of the elements, all at indentation `pad`.
pub open spec fn expanded_all(cs: Seq<ElementModel>, pad: Seq<char>) -> Seq<Seq<char>>
    decreases cs,
{
    Seq::new(
        cs.len(),
        |i: int|
            if 0 <= i < cs.len() {
                expanded(cs[i], pad)
            } else {
                arbitrary()
            },
    )
}

fn push_escaped(out: &mut String, text: &str)
    ensures
        final(out)@ == old(out)@ + esc(text@),
{
    let cs = to_chars(text);
    let ghost start = out@;
    for i in 0..cs.len()
        invariant
            cs@ == text@,
            out@ == start + esc(cs@.take(i as int)),
    {
        let c = cs[i];
        if c == '&' {
            append(out, "&amp;");
        } else if c == '<' {
            append(out, "&lt;");
        } else if c == '>' {
            append(out, "&gt;");
        } else if c == '"' {
            append(out, "&quot;");
        } else {
            push_char(out, c);
        }
        proof {
            assert(cs@.take(i + 1).drop_last() =~= cs@.take(i as int));
            assert(out@ =~= start + esc(cs@.take(i + 1)));
        }
    }
    assert(cs@.take(cs.len() as int) =~= cs@);
}

fn push_attrs(out: &mut String, el: &Element)
    ensures
        final(out)@ == old(out)@ + attrs_text(el@.attrs),
{
    let ghost start = out@;
    let ghost a = el@.attrs;
    for i in 0..el.attrs.len()
        invariant
            a == el@.attrs,
            a == pair_views(el.attrs@),
            out@ == start + attrs_text(a.take(i as int)),
    {
        append(out, " ");
        append(out, el.attrs[i].0.as_str());
        append(out, "=\"");
        push_escaped(out, el.attrs[i].1.as_str());
        append(out, "\"");
        proof {
            assert(a.take(i + 1).drop_last() =~= a.take(i as int));
            assert(a.take(i + 1).last() == a[i as int]);
            assert(out@ =~= start + attrs_text(a.take(i + 1)));
        }
    }
    assert(a.take(el.attrs.len() as int) =~= a);
}

fn render_compact(el: &Element, out: &mut String)
    ensures
        final(out)@ == old(out)@ + compact(el@),
    decreases el, 1nat,
{
    append(out, "<");
    append(out, el.tag.as_str());
    push_attrs(out, el);
    if el.children.len() == 0 && el.text.is_none() {
        append(out, " />");
        return;
    }
    append(out, ">");
    match &el.text {
        Some(t) => push_escaped(out, t.as_str()),
        None => {
            assert(esc(Seq::<char>::empty()) =~= Seq::<char>::empty());
        },
    }
    render_children_compact(el, out);
    append(out, "</");
    append(out, el.tag.as_str());
    append(out, ">");
}

fn render_children_compact(el: &Element, out: &mut String)
    ensures
        final(out)@ == old(out)@ + concat(compact_all(el@.children)),
    decreases el, 0nat,
{
    let ghost mid = out@;
    let ghost parts = compact_all(el@.children);
    for i in 0..el.children.len()
        invariant
            out@ == mid + concat(parts.take(i as int)),
            parts.len() == el.children.len(),
            forall|j: int| 0 <= j < el.children.len() ==> #[trigger] parts[j] == compact(el.children@[j]@),
    {
        proof {
            assert(decreases_to!(el => el.children@[i as int]));
        }
        render_compact(&el.children[i], out);
        proof {
            assert(parts.take(i + 1).drop_last() =~= parts.take(i as int));
        }
    }
    assert(parts.take(el.children.len() as int) =~= parts);
}

fn render_expanded(el: &Element, pad: &str, out: &mut String)
    ensures
        final(out)@ == old(out)@ + expanded(el@, pad@),
    decreases el, 1nat,
{
    let ghost start = out@;
    append(out, pad);
    append(out, "<");
    append(out, el.tag.as_str());
    push_attrs(out, el);
    let ghost head = pad@ + "<"@ + el@.tag + attrs_text(el@.attrs);
    assert(out@ == start + head);
    if el.children.len() == 0 {
        match &el.text {
            Some(t) => {
                append(out, ">");
                push_escaped(out, t.as_str());
                append(out, "</");
                append(out, el.tag.as_str());
                append(out, ">");
            },
            None => {
                append(out, "/>");
            },
        }
        return;
    }
    append(out, ">\n");
    let mut inner = owned(pad);
    append(&mut inner, "  ");
    render_children_expanded(el, inner.as_str(), out);
    append(out, "\n");
    append(out, pad);
    append(out, "</");
    append(out, el.tag.as_str());
    append(out, ">");
}

fn render_children_expanded(el: &Element, inner: &str, out: &mut String)
    ensures
        final(out)@ == old(out)@ + join(expanded_all(el@.children, inner@), "\n"@),
    decreases el, 0nat,
{
    let ghost mid = out@;
    let ghost parts = expanded_all(el@.children, inner@);
    for i in 0..el.children.len()
        invariant
            out@ == mid + join(parts.take(i as int), "\n"@),
            parts.len() == el.children.len(),
            forall|j: int| 0 <= j < el.children.len() ==> #[trigger] parts[j] == expanded(el.children@[j]@, inner@),
    {
        if i > 0 {
            append(out, "\n");
        }
        proof {
            assert(decreases_to!(el => el.children@[i as int]));
        }
        render_expanded(&el.children[i], inner, out);
        proof {
            assert(parts.take(i + 1).drop_last() =~= parts.take(i as int));
            if i == 0 {
                assert(parts.take(1) =~= seq![parts[0]]);
            }
        }
    }
    assert(parts.take(el.children.len() as int) =~= parts);
}

/// The text of an element in a layout.
pub open spec fn rendered(e: ElementModel, style: Style) -> Seq<char> {
    match style {
        Style::Compact => compact(e),
        Style::Expanded => expanded(e, Seq::empty()),
    }
}

pub fn render(el: &Element, style: Style) -> (res: String)
    ensures
        res@ == rendered(el@, style),
{
    let mut out = String::new();
    match style {
        Style::Compact => render_compact(el, &mut out),
        Style::Expanded => {
            proof {
                reveal_strlit("");
            }
            render_expanded(el, "", &mut out)
        },
    }
    out
}


// ---------------------------------------------------------------------
// Presentation -> canonical form
// ---------------------------------------------------------------------

pub open spec fn unknown_kind_message(tag: Seq<char>) -> Seq<char> {
    "неизвестный тип узла '"@ + tag + "'"@
}

pub open spec fn missing_id_message(tag: Seq<char>) -> Seq<char> {
    "у элемента <"@ + tag + "> отсутствует id"@
}

pub open spec fn missing_slot_message(tag: Seq<char>, id: Seq<char>, slot: Seq<char>) -> Seq<char> {
    "в <"@ + tag + " id="@ + id + "> отсутствует слот <"@ + slot + ">"@
}

pub open spec fn bad_option_message(slot: Seq<char>, options: Seq<Seq<char>>) -> Seq<char> {
    "слот <"@ + slot + ">: ожидалось одно из "@ + debug_list(options)
}

/// The (name, value) pairs of the `arg` children, in order; a missing
/// attribute reads as the empty string.
pub open spec fn arg_pairs(cs: Seq<ElementModel>) -> Seq<(Seq<char>, Seq<char>)>
    decreases cs.len(),
{
    if cs.len() == 0 {
        Seq::empty()
    } else {
        let prev = arg_pairs(cs.drop_last());
        let c = cs.last();
        if c.tag == "arg"@ {
            prev.push((attr_or_empty(c.attrs, "name"@), attr_or_empty(c.attrs, "value"@)))
        } else {
            prev
        }
    }
}

/// The value of a slot read from its element, by the slot's value type;
/// an option outside the slot's closed set is an error.
pub open spec fn slot_from_element(s: SlotModel, c: ElementModel) -> Result<SlotDataModel, Seq<char>> {
    match s.value {
        SlotValueModel::Str => Ok(SlotDataModel::Str(text_or_empty(c.text))),
        SlotValueModel::Ident => Ok(SlotDataModel::Ident(text_or_empty(c.text))),
        SlotValueModel::Enum(options) => if options.contains(text_or_empty(c.text)) {
            Ok(SlotDataModel::Ident(text_or_empty(c.text)))
        } else {
            Err(bad_option_message(s.name, options))
        },
        SlotValueModel::Cond => Ok(
            SlotDataModel::Cond(
                attr_or_empty(c.attrs, "field"@),
                attr_or_empty(c.attrs, "op"@),
                attr_or_empty(c.attrs, "value"@),
            ),
        ),
        SlotValueModel::Args => Ok(SlotDataModel::Args(arg_pairs(c.children))),
    }
}

/// The first `n` registry slots of `kind` read from the element's children
/// (the first child carrying the slot's name), or the first failure.
pub open spec fn slots_from_element(e: ElementModel, kind: Kind, id: Seq<char>, n: int) -> Result<
    Map<Seq<char>, SlotDataModel>,
    Seq<char>,
>
    decreases n,
{
    if n <= 0 {
        Ok(Map::empty())
    } else {
        match slots_from_element(e, kind, id, n - 1) {
            Err(m) => Err(m),
            Ok(m) => {
                let s = kind_slots(kind)[n - 1];
                match first_child(e.children, s.name) {
                    None => Err(missing_slot_message(e.tag, id, s.name)),
                    Some(c) => match slot_from_element(s, c) {
                        Err(msg) => Err(msg),
                        Ok(v) => Ok(m.insert(s.name, v)),
                    },
                }
            },
        }
    }
}

/// The node an element stands for: the kind from the upper-cased tag, the
/// id from the `id` attribute, the slots by the registry, the subtype from
/// the registry, in the given branch.
pub open spec fn element_node(e: ElementModel, branch_id: Seq<char>) -> Result<NodeModel, Seq<char>> {
    match kind_from_name(upper_of(e.tag)) {
        None => Err(unknown_kind_message(e.tag)),
        Some(kind) => match first_attr(e.attrs, "id"@) {
            None => Err(missing_id_message(e.tag)),
            Some(id) => match slots_from_element(e, kind, id, kind_slots(kind).len() as int) {
                Err(m) => Err(m),
                Ok(slots) => Ok(NodeModel { branch_id, ..new_node(id, kind_subtype(kind), kind, slots) }),
            },
        },
    }
}

fn text_or_default(t: &Option<String>) -> (res: String)
    ensures
        res@ == text_or_empty(opt_view(*t)),
{
    match t {
        Some(v) => v.clone(),
        None => String::new(),
    }
}

fn attr_or_default(el: &Element, k: &str) -> (res: String)
    ensures
        res@ == attr_or_empty(el@.attrs, k@),
{
    match el.get_attr(k) {
        Some(v) => v.clone(),
        None => String::new(),
    }
}

fn args_from_element(c: &Element) -> (res: Vec<(String, String)>)
    ensures
        pair_views(res@) == arg_pairs(c@.children),
{
    let ghost cs = c@.children;
    let mut pairs: Vec<(String, String)> = Vec::new();
    for i in 0..c.children.len()
        invariant
            cs == c@.children,
            cs.len() == c.children.len(),
            pair_views(pairs@) == arg_pairs(cs.take(i as int)),
    {
        let a = &c.children[i];
        assert(cs[i as int] == a@);
        assert(cs.take(i + 1).drop_last() =~= cs.take(i as int));
        if crate::text::str_eq(a.tag.as_str(), "arg") {
            let name = attr_or_default(a, "name");
            let value = attr_or_default(a, "value");
            pairs.push((name, value));
        }
        assert(pair_views(pairs@) =~= arg_pairs(cs.take(i + 1)));
    }
    assert(cs.take(c.children.len() as int) =~= cs);
    pairs
}

fn slot_from_child(slot: &crate::registry::Slot, child: &Element) -> (res: Result<SlotData, PresentationError>)
    ensures
        match res {
            Ok(v) => slot_from_element(slot@, child@) == Ok::<SlotDataModel, Seq<char>>(v@),
            Err(e) => slot_from_element(slot@, child@) == Err::<SlotDataModel, Seq<char>>(e.0@),
        },
{
    match &slot.value {
        SlotValue::String => Ok(SlotData::Str(text_or_default(&child.text))),
        SlotValue::Ident => Ok(SlotData::Ident(text_or_default(&child.text))),
        SlotValue::Enum(options) => {
            let val = text_or_default(&child.text);
            assert(str_views(options@) =~= options@.map_values(|o: &'static str| o@));
            if !crate::parser::contains_name(options, val.as_str()) {
                let mut m = owned("слот <");
                append(&mut m, slot.name);
                append(&mut m, ">: ожидалось одно из ");
                let shown = crate::parser::debug_list_exec(options);
                append(&mut m, shown.as_str());
                return Err(PresentationError(m));
            }
            Ok(SlotData::Ident(val))
        },
        SlotValue::Condition => {
            let field = attr_or_default(child, "field");
            let op = attr_or_default(child, "op");
            let val = attr_or_default(child, "value");
            Ok(SlotData::Cond(field, op, val))
        },
        SlotValue::Args => Ok(SlotData::Args(args_from_element(child))),
    }
}

/// An element read back as a node: the registry's slot list decides which
/// children are read and in what order, so the reader inverts the
/// generator by construction.
pub fn element_to_node(el: &Element, branch_id: &str) -> (res: Result<Node, PresentationError>)
    ensures
        match res {
            Ok(n) => element_node(el@, branch_id@) == Ok::<NodeModel, Seq<char>>(n@),
            Err(e) => element_node(el@, branch_id@) == Err::<NodeModel, Seq<char>>(e.0@),
        },
{
    let upper = to_uppercase(el.tag.as_str());
    let kind = match Kind::parse(upper.as_str()) {
        Some(k) => k,
        None => {
            let mut m = owned("неизвестный тип узла '");
            append(&mut m, el.tag.as_str());
            append(&mut m, "'");
            return Err(PresentationError(m));
        },
    };
    let entry = spec(kind);
    let node_id = match el.get_attr("id") {
        Some(v) => v.clone(),
        None => {
            let mut m = owned("у элемента <");
            append(&mut m, el.tag.as_str());
            append(&mut m, "> отсутствует id");
            return Err(PresentationError(m));
        },
    };
    let ghost ks = kind_slots(kind);
    let mut slots: KeyedMap<SlotData> = KeyedMap::new();
    assert(slots.deep() =~= Map::<Seq<char>, SlotDataModel>::empty());
    let mut i: usize = 0;
    while i < entry.slots.len()
        invariant
            entry@ == kind_spec(kind),
            ks == kind_slots(kind),
            i <= ks.len(),
            kind_from_name(upper_of(el@.tag)) == Some(kind),
            first_attr(el@.attrs, "id"@) == Some(node_id@),
            slots_from_element(el@, kind, node_id@, i as int) == Ok::<Map<Seq<char>, SlotDataModel>, Seq<char>>(slots.deep()),
            forall|j: int| 0 <= j < i ==> slots.deep().dom().contains(#[trigger] ks[j].name),
        decreases entry.slots.len() - i,
    {
        let slot = &entry.slots[i];
        assert(entry@.slots[i as int] == slot@);
        let child = match el.find(slot.name) {
            Some(c) => c,
            None => {
                let mut m = owned("в <");
                append(&mut m, el.tag.as_str());
                append(&mut m, " id=");
                append(&mut m, node_id.as_str());
                append(&mut m, "> отсутствует слот <");
                append(&mut m, slot.name);
                append(&mut m, ">");
                proof {
                    lemma_slots_error_stays(el@, kind, node_id@, i + 1, ks.len() as int);
                }
                return Err(PresentationError(m));
            },
        };
        let value = match slot_from_child(slot, child) {
            Ok(v) => v,
            Err(e) => {
                proof {
                    lemma_slots_error_stays(el@, kind, node_id@, i + 1, ks.len() as int);
                }
                return Err(e);
            },
        };
        let ghost before = slots;
        let ghost vv = value@;
        slots.insert(owned(slot.name), value);
        proof {
            crate::keyed_map::lemma_deep_insert(before, slots, slot.name@, slots.at(slot.name@));
            assert(slots.deep() == before.deep().insert(slot.name@, vv));
        }
        i += 1;
    }
    let mut node = Node::new(node_id, entry.subtype, kind, slots);
    node.branch_id = owned(branch_id);
    Ok(node)
}

pub open spec fn unknown_edge_type_message(t: Seq<char>) -> Seq<char> {
    "неизвестный тип ребра '"@ + t + "'"@
}

pub open spec fn edge_type_from_name(s: Seq<char>) -> Option<EdgeType> {
    if s == "seq"@ {
        Some(EdgeType::Sequence)
    } else if s == "branch"@ {
        Some(EdgeType::Branch)
    } else if s == "merge"@ {
        Some(EdgeType::Merge)
    } else {
        None
    }
}

/// The nodes of the first `n` elements, added one by one: the first failure
/// to read a node, or the first id read twice, is the error.
pub open spec fn nodes_from_elements(cs: Seq<ElementModel>, branch_id: Seq<char>, n: int) -> Result<
    Map<Seq<char>, NodeModel>,
    Seq<char>,
>
    decreases n,
{
    if n <= 0 {
        Ok(Map::empty())
    } else {
        match nodes_from_elements(cs, branch_id, n - 1) {
            Err(m) => Err(m),
            Ok(m) => match element_node(cs[n - 1], branch_id) {
                Err(e) => Err(e),
                Ok(node) => if m.dom().contains(node.node_id) {
                    Err(duplicate_node_error(node.node_id))
                } else {
                    Ok(m.insert(node.node_id, node))
                },
            },
        }
    }
}

/// The edges of the `edge` elements among the first `n`: the type defaults
/// to `seq`, an unknown type is the error; endpoints default to empty.
pub open spec fn edges_from_elements(cs: Seq<ElementModel>, n: int) -> Result<Seq<EdgeModel>, Seq<char>>
    decreases n,
{
    if n <= 0 {
        Ok(Seq::empty())
    } else {
        match edges_from_elements(cs, n - 1) {
            Err(m) => Err(m),
            Ok(es) => {
                let c = cs[n - 1];
                if c.tag != "edge"@ {
                    Ok(es)
                } else {
                    let t = match first_attr(c.attrs, "type"@) {
                        Some(v) => v,
                        None => "seq"@,
                    };
                    match edge_type_from_name(t) {
                        None => Err(unknown_edge_type_message(t)),
                        Some(edge_type) => Ok(
                            es.push(
                                EdgeModel {
                                    source: attr_or_empty(c.attrs, "from"@),
                                    target: attr_or_empty(c.attrs, "to"@),
                                    edge_type,
                                    label: first_attr(c.attrs, "label"@),
                                },
                            ),
                        ),
                    }
                }
            },
        }
    }
}

/// The graph a root element stands for: the nodes of its `nodes` child,
/// the edges of its `edges` child (either may be absent), and no edge
/// pointing at a node that is not there.
pub open spec fn element_graph(root: ElementModel, branch_id: Seq<char>) -> Result<GraphModel, Seq<char>> {
    let nodes = match first_child(root.children, "nodes"@) {
        None => Ok(Map::empty()),
        Some(ne) => nodes_from_elements(ne.children, branch_id, ne.children.len() as int),
    };
    match nodes {
        Err(m) => Err(m),
        Ok(nodes) => {
            let edges = match first_child(root.children, "edges"@) {
                None => Ok(Seq::empty()),
                Some(ee) => edges_from_elements(ee.children, ee.children.len() as int),
            };
            match edges {
                Err(m) => Err(m),
                Ok(edges) => match endpoint_error(nodes, edges) {
                    Some(m) => Err(m),
                    None => Ok(GraphModel { nodes, edges }),
                },
            }
        },
    }
}

fn edge_type_from_str(s: &str) -> (res: Option<EdgeType>)
    ensures
        res == edge_type_from_name(s@),
{
    if crate::text::str_eq(s, "seq") {
        Some(EdgeType::Sequence)
    } else if crate::text::str_eq(s, "branch") {
        Some(EdgeType::Branch)
    } else if crate::text::str_eq(s, "merge") {
        Some(EdgeType::Merge)
    } else {
        None
    }
}

fn add_element_nodes(graph: &mut IntentGraph, nodes_el: &Element, branch_id: &str) -> (res: Result<(), PresentationError>)
    requires
        old(graph)@.nodes == Map::<Seq<char>, NodeModel>::empty(),
        old(graph)@.edges == Seq::<EdgeModel>::empty(),
    ensures
        final(graph)@.edges == Seq::<EdgeModel>::empty(),
        crate::parser::graph_wf(final(graph)@),
        match res {
            Ok(()) => nodes_from_elements(nodes_el@.children, branch_id@, nodes_el@.children.len() as int) == Ok::<
                Map<Seq<char>, NodeModel>,
                Seq<char>,
            >(final(graph)@.nodes),
            Err(e) => nodes_from_elements(nodes_el@.children, branch_id@, nodes_el@.children.len() as int) == Err::<
                Map<Seq<char>, NodeModel>,
                Seq<char>,
            >(e.0@),
        },
{
    let ghost cs = nodes_el@.children;
    let mut i: usize = 0;
    while i < nodes_el.children.len()
        invariant
            cs == nodes_el@.children,
            cs.len() == nodes_el.children.len(),
            i <= cs.len(),
            graph@.edges == Seq::<EdgeModel>::empty(),
            crate::parser::graph_wf(graph@),
            nodes_from_elements(cs, branch_id@, i as int) == Ok::<Map<Seq<char>, NodeModel>, Seq<char>>(graph@.nodes),
        decreases nodes_el.children.len() - i,
    {
        assert(cs[i as int] == nodes_el.children@[i as int]@);
        let node = match element_to_node(&nodes_el.children[i], branch_id) {
            Ok(n) => n,
            Err(e) => {
                proof {
                    lemma_nodes_error_stays(cs, branch_id@, i + 1, cs.len() as int);
                }
                return Err(e);
            },
        };
        proof {
            lemma_element_node_filled(cs[i as int], branch_id@);
        }
        let ghost gb = graph@;
        match graph.add_node(node) {
            Ok(()) => {},
            Err(m) => {
                proof {
                    lemma_nodes_error_stays(cs, branch_id@, i + 1, cs.len() as int);
                }
                return Err(PresentationError(m));
            },
        }
        i += 1;
    }
    Ok(())
}

fn add_element_edges(graph: &mut IntentGraph, edges_el: &Element) -> (res: Result<(), PresentationError>)
    requires
        old(graph)@.edges == Seq::<EdgeModel>::empty(),
    ensures
        final(graph)@.nodes == old(graph)@.nodes,
        match res {
            Ok(()) => edges_from_elements(edges_el@.children, edges_el@.children.len() as int) == Ok::<
                Seq<EdgeModel>,
                Seq<char>,
            >(final(graph)@.edges),
            Err(e) => edges_from_elements(edges_el@.children, edges_el@.children.len() as int) == Err::<
                Seq<EdgeModel>,
                Seq<char>,
            >(e.0@),
        },
{
    let ghost cs = edges_el@.children;
    let mut i: usize = 0;
    while i < edges_el.children.len()
        invariant
            cs == edges_el@.children,
            cs.len() == edges_el.children.len(),
            i <= cs.len(),
            graph@.nodes == old(graph)@.nodes,
            edges_from_elements(cs, i as int) == Ok::<Seq<EdgeModel>, Seq<char>>(graph@.edges),
        decreases edges_el.children.len() - i,
    {
        let e = &edges_el.children[i];
        assert(cs[i as int] == e@);
        if crate::text::str_eq(e.tag.as_str(), "edge") {
            let etype: String = match e.get_attr("type") {
                Some(v) => v.clone(),
                None => owned("seq"),
            };
            let edge_type = match edge_type_from_str(etype.as_str()) {
                Some(t) => t,
                None => {
                    let mut m = owned("неизвестный тип ребра '");
                    append(&mut m, etype.as_str());
                    append(&mut m, "'");
                    proof {
                        lemma_edges_error_stays(cs, i + 1, cs.len() as int);
                    }
                    return Err(PresentationError(m));
                },
            };
            let source = attr_or_default(e, "from");
            let target = attr_or_default(e, "to");
            let label = match e.get_attr("label") {
                Some(l) => Some(l.clone()),
                None => None,
            };
            graph.add_edge(Edge { source, target, edge_type, label });
        }
        i += 1;
    }
    Ok(())
}


proof fn lemma_nodes_error_stays(cs: Seq<ElementModel>, branch_id: Seq<char>, i: int, n: int)
    requires
        i <= n,
        nodes_from_elements(cs, branch_id, i) is Err,
    ensures
        nodes_from_elements(cs, branch_id, n) == nodes_from_elements(cs, branch_id, i),
    decreases n - i,
{
    if i < n {
        lemma_nodes_error_stays(cs, branch_id, i, n - 1);
    }
}

proof fn lemma_edges_error_stays(cs: Seq<ElementModel>, i: int, n: int)
    requires
        i <= n,
        edges_from_elements(cs, i) is Err,
    ensures
        edges_from_elements(cs, n) == edges_from_elements(cs, i),
    decreases n - i,
{
    if i < n {
        lemma_edges_error_stays(cs, i, n - 1);
    }
}

proof fn lemma_slots_error_stays(e: ElementModel, kind: Kind, id: Seq<char>, i: int, n: int)
    requires
        i <= n,
        slots_from_element(e, kind, id, i) is Err,
    ensures
        slots_from_element(e, kind, id, n) == slots_from_element(e, kind, id, i),
    decreases n - i,
{
    if i < n {
        lemma_slots_error_stays(e, kind, id, i, n - 1);
    }
}

/// A node read from an element has every slot of its kind.
proof fn lemma_element_node_filled(e: ElementModel, branch_id: Seq<char>)
    ensures
        element_node(e, branch_id) matches Ok(n) ==> slots_filled(n.kind, n.slots),
{
    if let Ok(n) = element_node(e, branch_id) {
        let kind = n.kind;
        let id = n.node_id;
        lemma_slots_from_element_dom(e, kind, id, kind_slots(kind).len() as int);
    }
}

proof fn lemma_slots_from_element_dom(e: ElementModel, kind: Kind, id: Seq<char>, n: int)
    requires
        n <= kind_slots(kind).len(),
    ensures
        slots_from_element(e, kind, id, n) matches Ok(m) ==> forall|j: int| 0 <= j < n ==> m.dom().contains(
            #[trigger] kind_slots(kind)[j].name,
        ),
    decreases n,
{
    if n > 0 {
        lemma_slots_from_element_dom(e, kind, id, n - 1);
    }
}

/// A root element read back as a graph.
pub fn element_to_graph(root: &Element, branch_id: &str) -> (res: Result<IntentGraph, PresentationError>)
    ensures
        match res {
            Ok(g) => element_graph(root@, branch_id@) == Ok::<GraphModel, Seq<char>>(g@) && crate::parser::graph_wf(g@),
            Err(e) => element_graph(root@, branch_id@) == Err::<GraphModel, Seq<char>>(e.0@),
        },
{
    let mut graph = IntentGraph::new();
    match root.find("nodes") {
        Some(nodes_el) => {
            match add_element_nodes(&mut graph, nodes_el, branch_id) {
                Ok(()) => {},
                Err(e) => {
                    return Err(e);
                },
            }
        },
        None => {},
    }
    match root.find("edges") {
        Some(edges_el) => {
            match add_element_edges(&mut graph, edges_el) {
                Ok(()) => {},
                Err(e) => {
                    return Err(e);
                },
            }
        },
        None => {
            assert(graph@.edges =~= Seq::<EdgeModel>::empty());
        },
    }
    match graph.validate_edge_endpoints() {
        Ok(()) => {},
        Err(m) => {
            return Err(PresentationError(m));
        },
    }
    Ok(graph)
}


// ---------------------------------------------------------------------
// Reading the text form
// ---------------------------------------------------------------------

pub open spec fn lt_entity() -> Seq<char> {
    seq!['&', 'l', 't', ';']
}

pub open spec fn gt_entity() -> Seq<char> {
    seq!['&', 'g', 't', ';']
}

pub open spec fn quot_entity() -> Seq<char> {
    seq!['&', 'q', 'u', 'o', 't', ';']
}

pub open spec fn amp_entity() -> Seq<char> {
    seq!['&', 'a', 'm', 'p', ';']
}

/// The text with the entities `&lt;`, `&gt;`, `&quot;` and `&amp;`
/// decoded, read from left to right.
pub open spec fn unescape(s: Seq<char>) -> Seq<char>
    decreases s.len(),
{
    if s.len() == 0 {
        Seq::empty()
    } else if crate::text::is_prefix(lt_entity(), s) {
        seq!['<'] + unescape(s.skip(4))
    } else if crate::text::is_prefix(gt_entity(), s) {
        seq!['>'] + unescape(s.skip(4))
    } else if crate::text::is_prefix(quot_entity(), s) {
        seq!['"'] + unescape(s.skip(6))
    } else if crate::text::is_prefix(amp_entity(), s) {
        seq!['&'] + unescape(s.skip(5))
    } else {
        seq![s[0]] + unescape(s.skip(1))
    }
}

/// The first position from `p` on that holds no whitespace.
pub open spec fn skip_ws_from(cs: Seq<char>, p: int) -> int
    decreases cs.len() - p,
{
    if 0 <= p < cs.len() && ws_char(cs[p]) {
        skip_ws_from(cs, p + 1)
    } else {
        p
    }
}

pub open spec fn is_name_char(c: char) -> bool {
    alnum_char(c) || c == '_' || c == '-' || c == ':'
}

/// The end of the name that starts at `p`.
pub open spec fn name_end(cs: Seq<char>, p: int) -> int
    decreases cs.len() - p,
{
    if 0 <= p < cs.len() && is_name_char(cs[p]) {
        name_end(cs, p + 1)
    } else {
        p
    }
}

/// The first position from `p` on that holds `c` (the end when none does).
pub open spec fn find_from(cs: Seq<char>, p: int, c: char) -> int
    decreases cs.len() - p,
{
    if 0 <= p < cs.len() && cs[p] != c {
        find_from(cs, p + 1, c)
    } else {
        p
    }
}

pub proof fn lemma_skip_ws(cs: Seq<char>, p: int)
    ensures
        p <= skip_ws_from(cs, p),
        0 <= p <= cs.len() ==> skip_ws_from(cs, p) <= cs.len(),
        0 <= p ==> skip_ws_from(cs, p) < cs.len() ==> !ws_char(cs[skip_ws_from(cs, p)]),
    decreases cs.len() - p,
{
    if 0 <= p < cs.len() && ws_char(cs[p]) {
        lemma_skip_ws(cs, p + 1);
    }
}

pub proof fn lemma_skip_ws_idem(cs: Seq<char>, p: int)
    ensures
        skip_ws_from(cs, skip_ws_from(cs, p)) == skip_ws_from(cs, p),
{
    lemma_skip_ws(cs, p);
}

pub proof fn lemma_name_end(cs: Seq<char>, p: int)
    ensures
        p <= name_end(cs, p),
        0 <= p <= cs.len() ==> name_end(cs, p) <= cs.len(),
    decreases cs.len() - p,
{
    if 0 <= p < cs.len() && is_name_char(cs[p]) {
        lemma_name_end(cs, p + 1);
    }
}

pub proof fn lemma_find_from(cs: Seq<char>, p: int, c: char)
    ensures
        p <= find_from(cs, p, c),
        0 <= p <= cs.len() ==> find_from(cs, p, c) <= cs.len(),
        0 <= p ==> find_from(cs, p, c) < cs.len() ==> cs[find_from(cs, p, c)] == c,
    decreases cs.len() - p,
{
    if 0 <= p < cs.len() && cs[p] != c {
        lemma_find_from(cs, p + 1, c);
    }
}

pub open spec fn expect_message(c: char, p: int) -> Seq<char> {
    "ожидался '"@ + seq![c] + "' в позиции "@ + decimal(p as nat)
}

pub open spec fn close_mismatch_message(tag: Seq<char>, closing: Seq<char>) -> Seq<char> {
    "несовпадение закрывающего тега: <"@ + tag + "> .. </"@ + closing + ">"@
}

/// Whether `cs[p]` is `c`.
pub open spec fn at(cs: Seq<char>, p: int, c: char) -> bool {
    0 <= p < cs.len() && cs[p] == c
}

/// The attributes from `p` up to `/` or `>` (or the end): each
/// `name = "value"`, whitespace allowed around the `=`, the value decoded;
/// with the position after them.
pub open spec fn attrs_from(cs: Seq<char>, p: int) -> Result<(Seq<(Seq<char>, Seq<char>)>, int), Seq<char>>
    decreases cs.len() - p,
{
    let p1 = skip_ws_from(cs, p);
    if !(0 <= p1 < cs.len()) || cs[p1] == '/' || cs[p1] == '>' {
        Ok((Seq::empty(), p1))
    } else {
        let n1 = name_end(cs, p1);
        let p2 = skip_ws_from(cs, n1);
        if !at(cs, p2, '=') {
            Err(expect_message('=', p2))
        } else {
            let p3 = skip_ws_from(cs, p2 + 1);
            if !at(cs, p3, '"') {
                Err(expect_message('"', p3))
            } else {
                let q = find_from(cs, p3 + 1, '"');
                if !at(cs, q, '"') {
                    Err(expect_message('"', q))
                } else {
                    proof {
                        lemma_skip_ws(cs, p);
                        lemma_name_end(cs, p1);
                        lemma_skip_ws(cs, n1);
                        lemma_skip_ws(cs, p2 + 1);
                        lemma_find_from(cs, p3 + 1, '"');
                    }
                    match attrs_from(cs, q + 1) {
                        Err(m) => Err(m),
                        Ok((rest, e)) => Ok(
                            (seq![(cs.subrange(p1, n1), unescape(cs.subrange(p3 + 1, q)))] + rest, e),
                        ),
                    }
                }
            }
        }
    }
}

pub proof fn lemma_attrs_from(cs: Seq<char>, p: int)
    ensures
        attrs_from(cs, p) matches Ok((_, e)) ==> p <= e && (0 <= p <= cs.len() ==> e <= cs.len()),
    decreases cs.len() - p,
{
    lemma_skip_ws(cs, p);
    let p1 = skip_ws_from(cs, p);
    if !(!(0 <= p1 < cs.len()) || cs[p1] == '/' || cs[p1] == '>') {
        let n1 = name_end(cs, p1);
        let p2 = skip_ws_from(cs, n1);
        lemma_name_end(cs, p1);
        lemma_skip_ws(cs, n1);
        if at(cs, p2, '=') {
            let p3 = skip_ws_from(cs, p2 + 1);
            lemma_skip_ws(cs, p2 + 1);
            if at(cs, p3, '"') {
                let q = find_from(cs, p3 + 1, '"');
                lemma_find_from(cs, p3 + 1, '"');
                if at(cs, q, '"') {
                    lemma_attrs_from(cs, q + 1);
                }
            }
        }
    }
}

/// The closing tag `</tag >` at `p` (whitespace allowed before `>`), with
/// the position after it.
pub open spec fn close_from(cs: Seq<char>, p: int, tag: Seq<char>) -> Result<int, Seq<char>> {
    if !at(cs, p, '<') {
        Err(expect_message('<', p))
    } else if !at(cs, p + 1, '/') {
        Err(expect_message('/', p + 1))
    } else {
        let n = name_end(cs, p + 2);
        let closing = cs.subrange(p + 2, n);
        if closing != tag {
            Err(close_mismatch_message(tag, closing))
        } else {
            let q = skip_ws_from(cs, n);
            if !at(cs, q, '>') {
                Err(expect_message('>', q))
            } else {
                Ok(q + 1)
            }
        }
    }
}

pub proof fn lemma_close_from(cs: Seq<char>, p: int, tag: Seq<char>)
    ensures
        close_from(cs, p, tag) matches Ok(e) ==> p < e <= cs.len(),
{
    if at(cs, p, '<') && at(cs, p + 1, '/') {
        lemma_name_end(cs, p + 2);
        lemma_skip_ws(cs, name_end(cs, p + 2));
    }
}

/// The element that starts at `p` (after whitespace), with the position
/// after it: a self-closing tag; or an opening tag followed (after
/// whitespace) by child elements up to the closing tag; or by text up to
/// the next `<`, which must open the closing tag. Text is decoded and kept
/// whole, whitespace included.
pub open spec fn element_from(cs: Seq<char>, p: int) -> Result<(ElementModel, int), Seq<char>>
    decreases cs.len() - p, 0nat,
{
    let p1 = skip_ws_from(cs, p);
    if !at(cs, p1, '<') {
        Err(expect_message('<', p1))
    } else {
        let t = name_end(cs, p1 + 1);
        let tag = cs.subrange(p1 + 1, t);
        match attrs_from(cs, t) {
            Err(m) => Err(m),
            Ok((attrs, p2)) => {
                let p3 = skip_ws_from(cs, p2);
                if at(cs, p3, '/') {
                    if at(cs, p3 + 1, '>') {
                        Ok((ElementModel { tag, attrs, children: Seq::empty(), text: None }, p3 + 2))
                    } else {
                        Err(expect_message('>', p3 + 1))
                    }
                } else if !at(cs, p3, '>') {
                    Err(expect_message('>', p3))
                } else {
                    let p4 = skip_ws_from(cs, p3 + 1);
                    if at(cs, p4, '<') && !at(cs, p4 + 1, '/') {
                        proof {
                            lemma_skip_ws(cs, p);
                            lemma_name_end(cs, p1 + 1);
                            lemma_attrs_from(cs, t);
                            lemma_skip_ws(cs, p2);
                            lemma_skip_ws(cs, p3 + 1);
                        }
                        match children_from(cs, p4) {
                            Err(m) => Err(m),
                            Ok((children, p5)) => match close_from(cs, skip_ws_from(cs, p5), tag) {
                                Err(m) => Err(m),
                                Ok(p6) => Ok((ElementModel { tag, attrs, children, text: None }, p6)),
                            },
                        }
                    } else {
                        let q = find_from(cs, p3 + 1, '<');
                        match close_from(cs, q, tag) {
                            Err(m) => Err(m),
                            Ok(p6) => Ok(
                                (
                                    ElementModel {
                                        tag,
                                        attrs,
                                        children: Seq::empty(),
                                        text: Some(unescape(cs.subrange(p3 + 1, q))),
                                    },
                                    p6,
                                ),
                            ),
                        }
                    }
                }
            },
        }
    }
}

/// The child elements from `p` up to (after whitespace) `</`, with the
/// position of that `</`. An element that would end where it started, or
/// past the end, stops the reading.
pub open spec fn children_from(cs: Seq<char>, p: int) -> Result<(Seq<ElementModel>, int), Seq<char>>
    decreases cs.len() - p, 1nat,
{
    let p1 = skip_ws_from(cs, p);
    if at(cs, p1, '<') && at(cs, p1 + 1, '/') {
        Ok((Seq::empty(), p1))
    } else {
        proof {
            lemma_skip_ws(cs, p);
        }
        match element_from(cs, p1) {
            Err(m) => Err(m),
            Ok((c, p2)) => if p1 < p2 <= cs.len() {
                match children_from(cs, p2) {
                    Err(m) => Err(m),
                    Ok((rest, p3)) => Ok((seq![c] + rest, p3)),
                }
            } else {
                Err(Seq::empty())
            },
        }
    }
}

struct XmlParser<'a> {
    chars: &'a Vec<char>,
    pos: usize,
}

impl<'a> XmlParser<'a> {
    fn skip_ws(&mut self)
        requires
            old(self).pos <= old(self).chars@.len(),
        ensures
            final(self).chars == old(self).chars,
            final(self).pos == skip_ws_from(old(self).chars@, old(self).pos as int),
            final(self).pos <= final(self).chars@.len(),
    {
        proof {
            lemma_skip_ws(self.chars@, self.pos as int);
        }
        while self.pos < self.chars.len() && is_whitespace(self.chars[self.pos])
            invariant
                self.chars == old(self).chars,
                self.pos <= self.chars@.len(),
                skip_ws_from(self.chars@, self.pos as int) == skip_ws_from(old(self).chars@, old(self).pos as int),
            decreases self.chars@.len() - self.pos,
        {
            self.pos += 1;
        }
    }

    fn peek(&self) -> (res: Option<char>)
        ensures
            res == (if self.pos < self.chars@.len() {
                Some(self.chars@[self.pos as int])
            } else {
                None
            }),
    {
        if self.pos < self.chars.len() {
            Some(self.chars[self.pos])
        } else {
            None
        }
    }

    /// Whether the current character is `c`.
    fn current_is(&self, c: char) -> (res: bool)
        ensures
            res == at(self.chars@, self.pos as int, c),
            res ==> self.pos < self.chars.len(),
    {
        self.pos < self.chars.len() && self.chars[self.pos] == c
    }

    /// Whether the character after the current one is `c`.
    fn next_is(&self, c: char) -> (res: bool)
        requires
            self.pos <= self.chars@.len(),
        ensures
            res == at(self.chars@, self.pos + 1, c),
    {
        self.pos < self.chars.len() && self.chars.len() - self.pos > 1 && self.chars[self.pos + 1] == c
    }

    fn expect_char(&mut self, c: char) -> (res: Result<(), PresentationError>)
        requires
            old(self).pos <= old(self).chars@.len(),
        ensures
            final(self).chars == old(self).chars,
            match res {
                Ok(()) => at(old(self).chars@, old(self).pos as int, c) && final(self).pos == old(self).pos + 1,
                Err(e) => !at(old(self).chars@, old(self).pos as int, c) && e.0@ == expect_message(c, old(self).pos as int)
                    && final(self).pos == old(self).pos,
            },
    {
        if !self.current_is(c) {
            let mut m = owned("ожидался '");
            push_char(&mut m, c);
            append(&mut m, "' в позиции ");
            let n = usize_to_string(self.pos);
            append(&mut m, n.as_str());
            return Err(PresentationError(m));
        }
        self.pos += 1;
        Ok(())
    }

    fn read_name(&mut self) -> (res: String)
        requires
            old(self).pos <= old(self).chars@.len(),
        ensures
            final(self).chars == old(self).chars,
            final(self).pos == name_end(old(self).chars@, old(self).pos as int),
            res@ == old(self).chars@.subrange(old(self).pos as int, final(self).pos as int),
    {
        let start = self.pos;
        proof {
            lemma_name_end(self.chars@, self.pos as int);
        }
        while self.pos < self.chars.len()
            invariant
                self.chars == old(self).chars,
                start == old(self).pos,
                start <= self.pos <= self.chars@.len(),
                name_end(self.chars@, self.pos as int) == name_end(old(self).chars@, start as int),
            ensures
                self.chars == old(self).chars,
                start <= self.pos <= self.chars@.len(),
                name_end(self.chars@, self.pos as int) == name_end(old(self).chars@, start as int),
                name_end(self.chars@, self.pos as int) == self.pos,
            decreases self.chars@.len() - self.pos,
        {
            let c = self.chars[self.pos];
            if is_alphanumeric(c) || c == '_' || c == '-' || c == ':' {
                self.pos += 1;
            } else {
                break;
            }
        }
        chars_to_string_at(self.chars, start, self.pos)
    }

    fn unescape(s: &Vec<char>, lo: usize, hi: usize) -> (res: String)
        requires
            lo <= hi <= s@.len(),
        ensures
            res@ == unescape(s@.subrange(lo as int, hi as int)),
    {
        let ghost whole = s@.subrange(lo as int, hi as int);
        let mut out = String::new();
        let mut i = lo;
        proof {
            reveal_strlit("&lt;");
            reveal_strlit("&gt;");
            reveal_strlit("&quot;");
            reveal_strlit("&amp;");
            assert("&lt;"@ =~= lt_entity());
            assert("&gt;"@ =~= gt_entity());
            assert("&quot;"@ =~= quot_entity());
            assert("&amp;"@ =~= amp_entity());
        }
        while i < hi
            invariant
                lo <= i <= hi <= s@.len(),
                whole == s@.subrange(lo as int, hi as int),
                "&lt;"@ == lt_entity(),
                "&gt;"@ == gt_entity(),
                "&quot;"@ == quot_entity(),
                "&amp;"@ == amp_entity(),
                out@ + unescape(s@.subrange(i as int, hi as int)) == unescape(whole),
            decreases hi - i,
        {
            let ghost rest = s@.subrange(i as int, hi as int);
            let sub = slice_chars(s, i, hi);
            assert(sub@ == rest);
            assert(sub@.skip(0) =~= sub@);
            if starts_with_at(&sub, 0, "&lt;") {
                push_char(&mut out, '<');
                assert(rest.skip(4) =~= s@.subrange(i + 4, hi as int));
                i += 4;
            } else if starts_with_at(&sub, 0, "&gt;") {
                push_char(&mut out, '>');
                assert(rest.skip(4) =~= s@.subrange(i + 4, hi as int));
                i += 4;
            } else if starts_with_at(&sub, 0, "&quot;") {
                push_char(&mut out, '"');
                assert(rest.skip(6) =~= s@.subrange(i + 6, hi as int));
                i += 6;
            } else if starts_with_at(&sub, 0, "&amp;") {
                push_char(&mut out, '&');
                assert(rest.skip(5) =~= s@.subrange(i + 5, hi as int));
                i += 5;
            } else {
                push_char(&mut out, s[i]);
                assert(rest.skip(1) =~= s@.subrange(i + 1, hi as int));
                i += 1;
            }
        }
        assert(s@.subrange(hi as int, hi as int) =~= Seq::<char>::empty());
        out
    }

    fn read_attrs(&mut self) -> (res: Result<Vec<(String, String)>, PresentationError>)
        requires
            old(self).pos <= old(self).chars@.len(),
        ensures
            final(self).chars == old(self).chars,
            final(self).pos <= final(self).chars@.len(),
            match res {
                Ok(a) => attrs_from(old(self).chars@, old(self).pos as int) == Ok::<
                    (Seq<(Seq<char>, Seq<char>)>, int),
                    Seq<char>,
                >((pair_views(a@), final(self).pos as int)),
                Err(e) => attrs_from(old(self).chars@, old(self).pos as int) == Err::<
                    (Seq<(Seq<char>, Seq<char>)>, int),
                    Seq<char>,
                >(e.0@),
            },
    {
        let ghost cs = self.chars@;
        let ghost p0 = self.pos as int;
        let mut attrs: Vec<(String, String)> = Vec::new();
        loop
            invariant
                self.chars == old(self).chars,
                cs == self.chars@,
                p0 == old(self).pos as int,
                self.pos <= cs.len(),
                attrs_from(cs, p0) == match attrs_from(cs, self.pos as int) {
                    Ok((rest, e)) => Ok::<(Seq<(Seq<char>, Seq<char>)>, int), Seq<char>>((pair_views(attrs@) + rest, e)),
                    Err(m) => Err(m),
                },
            ensures
                self.chars == old(self).chars,
                self.pos <= cs.len(),
                attrs_from(cs, p0) == Ok::<(Seq<(Seq<char>, Seq<char>)>, int), Seq<char>>(
                    (pair_views(attrs@), self.pos as int),
                ),
            decreases cs.len() - self.pos,
        {
            let ghost p = self.pos as int;
            self.skip_ws();
            proof {
                lemma_skip_ws(cs, p);
            }
            match self.peek() {
                Some('/') | Some('>') | None => {
                    proof {
                        lemma_skip_ws_idem(cs, p);
                        assert(pair_views(attrs@) + Seq::<(Seq<char>, Seq<char>)>::empty() =~= pair_views(attrs@));
                        assert(attrs_from(cs, self.pos as int) == Ok::<(Seq<(Seq<char>, Seq<char>)>, int), Seq<char>>(
                            (Seq::empty(), self.pos as int),
                        ));
                        assert(attrs_from(cs, p) == attrs_from(cs, self.pos as int));
                    }
                    break;
                },
                _ => {},
            }
            let ghost p1 = self.pos as int;
            let name_start = self.pos;
            let name = self.read_name();
            proof {
                lemma_name_end(cs, p1);
            }
            self.skip_ws();
            proof {
                lemma_skip_ws(cs, name_end(cs, p1));
            }
            let ghost p2 = self.pos as int;
            proof {
                assert(p1 == skip_ws_from(cs, p));
                assert(0 <= p1 < cs.len() && cs[p1] != '/' && cs[p1] != '>');
                assert(p2 == skip_ws_from(cs, name_end(cs, p1)));
            }
            match self.expect_char('=') {
                Ok(()) => {},
                Err(e) => {
                    proof {
                        assert(attrs_from(cs, p) == Err::<(Seq<(Seq<char>, Seq<char>)>, int), Seq<char>>(expect_message('=', p2)));
                    }
                    return Err(e);
                },
            }
            self.skip_ws();
            proof {
                lemma_skip_ws(cs, p2 + 1);
            }
            let ghost p3 = self.pos as int;
            match self.expect_char('"') {
                Ok(()) => {},
                Err(e) => {
                    proof {
                        assert(attrs_from(cs, p) == Err::<(Seq<(Seq<char>, Seq<char>)>, int), Seq<char>>(expect_message('"', p3)));
                    }
                    return Err(e);
                },
            }
            let start = self.pos;
            proof {
                lemma_find_from(cs, start as int, '"');
            }
            while self.pos < self.chars.len() && self.chars[self.pos] != '"'
                invariant
                    self.chars == old(self).chars,
                    cs == self.chars@,
                    start <= self.pos <= cs.len(),
                    find_from(cs, self.pos as int, '"') == find_from(cs, start as int, '"'),
                decreases cs.len() - self.pos,
            {
                self.pos += 1;
            }
            let end = self.pos;
            match self.expect_char('"') {
                Ok(()) => {},
                Err(e) => {
                    return Err(e);
                },
            }
            let value = Self::unescape(self.chars, start, end);
            let ghost before = pair_views(attrs@);
            attrs.push((name, value));
            proof {
                assert(pair_views(attrs@) =~= before.push((cs.subrange(p1, name_end(cs, p1)), unescape(cs.subrange(start as int, end as int)))));
                match attrs_from(cs, self.pos as int) {
                    Ok((rest, e)) => {
                        assert(pair_views(attrs@) + rest =~= before + (seq![(cs.subrange(p1, name_end(cs, p1)), unescape(cs.subrange(start as int, end as int)))] + rest));
                    },
                    Err(m) => {},
                }
            }
        }
        Ok(attrs)
    }

    fn expect_close(&mut self, tag: &String) -> (res: Result<(), PresentationError>)
        requires
            old(self).pos <= old(self).chars@.len(),
        ensures
            final(self).chars == old(self).chars,
            final(self).pos <= final(self).chars@.len(),
            match res {
                Ok(()) => close_from(old(self).chars@, old(self).pos as int, tag@) == Ok::<int, Seq<char>>(final(self).pos as int),
                Err(e) => close_from(old(self).chars@, old(self).pos as int, tag@) == Err::<int, Seq<char>>(e.0@),
            },
    {
        let ghost cs = self.chars@;
        let ghost p = self.pos as int;
        match self.expect_char('<') {
            Ok(()) => {},
            Err(e) => {
                return Err(e);
            },
        }
        match self.expect_char('/') {
            Ok(()) => {},
            Err(e) => {
                return Err(e);
            },
        }
        let closing = self.read_name();
        proof {
            lemma_name_end(cs, p + 2);
        }
        if !crate::text::str_eq(closing.as_str(), tag.as_str()) {
            let mut m = owned("несовпадение закрывающего тега: <");
            append(&mut m, tag.as_str());
            append(&mut m, "> .. </");
            append(&mut m, closing.as_str());
            append(&mut m, ">");
            return Err(PresentationError(m));
        }
        self.skip_ws();
        match self.expect_char('>') {
            Ok(()) => {},
            Err(e) => {
                return Err(e);
            },
        }
        Ok(())
    }

    fn parse_element(&mut self) -> (res: Result<Element, PresentationError>)
        requires
            old(self).pos <= old(self).chars@.len(),
        ensures
            final(self).chars == old(self).chars,
            final(self).pos <= final(self).chars@.len(),
            match res {
                Ok(el) => element_from(old(self).chars@, old(self).pos as int) == Ok::<(ElementModel, int), Seq<char>>(
                    (el@, final(self).pos as int),
                ) && old(self).pos < final(self).pos,
                Err(e) => element_from(old(self).chars@, old(self).pos as int) == Err::<(ElementModel, int), Seq<char>>(
                    e.0@,
                ),
            },
        decreases old(self).chars@.len() - old(self).pos,
    {
        let ghost cs = self.chars@;
        let ghost p = self.pos as int;
        self.skip_ws();
        proof {
            lemma_skip_ws(cs, p);
        }
        match self.expect_char('<') {
            Ok(()) => {},
            Err(e) => {
                return Err(e);
            },
        }
        let tag = self.read_name();
        let ghost t = self.pos as int;
        proof {
            lemma_name_end(cs, skip_ws_from(cs, p) + 1);
        }
        let attrs = match self.read_attrs() {
            Ok(a) => a,
            Err(e) => {
                return Err(e);
            },
        };
        let ghost p2 = self.pos as int;
        proof {
            lemma_attrs_from(cs, t);
            lemma_skip_ws(cs, p2);
        }
        self.skip_ws();
        if self.current_is('/') {
            self.pos += 1;
            match self.expect_char('>') {
                Ok(()) => {},
                Err(e) => {
                    return Err(e);
                },
            }
            let el = Element { tag, attrs, children: Vec::new(), text: None };
            assert(el@.children =~= Seq::<ElementModel>::empty());
            return Ok(el);
        }
        match self.expect_char('>') {
            Ok(()) => {},
            Err(e) => {
                return Err(e);
            },
        }
        let ghost p3 = self.pos as int - 1;
        let after_open = self.pos;
        self.skip_ws();
        let ghost p4 = self.pos as int;
        proof {
            lemma_skip_ws(cs, p3 + 1);
        }
        if self.current_is('<') && !self.next_is('/') {
            let ghost tv = tag@;
            let ghost av = pair_views(attrs@);
            let ghost whole = match children_from(cs, p4) {
                Err(m) => Err(m),
                Ok((children, p5)) => match close_from(cs, skip_ws_from(cs, p5), tv) {
                    Err(m) => Err(m),
                    Ok(p6) => Ok((ElementModel { tag: tv, attrs: av, children, text: None }, p6)),
                },
            };
            assert(element_from(cs, p) == whole);
            let mut children: Vec<Element> = Vec::new();
            loop
                invariant
                    element_from(cs, p) == whole,
                    whole == match children_from(cs, p4) {
                        Err(m) => Err(m),
                        Ok((children, p5)) => match close_from(cs, skip_ws_from(cs, p5), tv) {
                            Err(m) => Err(m),
                            Ok(p6) => Ok((ElementModel { tag: tv, attrs: av, children, text: None }, p6)),
                        },
                    },
                    tv == tag@,
                    av == pair_views(attrs@),
                    self.chars == old(self).chars,
                    cs == self.chars@,
                    p == old(self).pos as int,
                    p4 <= self.pos <= cs.len(),
                    p < p4,
                    children_from(cs, p4) == match children_from(cs, self.pos as int) {
                        Ok((rest, e)) => Ok::<(Seq<ElementModel>, int), Seq<char>>((element_views(children@) + rest, e)),
                        Err(m) => Err(m),
                    },
                ensures
                    element_from(cs, p) == whole,
                    tv == tag@,
                    av == pair_views(attrs@),
                    self.chars == old(self).chars,
                    cs == self.chars@,
                    p == old(self).pos as int,
                    p4 <= self.pos <= cs.len(),
                    p < p4,
                    children_from(cs, p4) == Ok::<(Seq<ElementModel>, int), Seq<char>>(
                        (element_views(children@), self.pos as int),
                    ),
                decreases cs.len() - self.pos,
            {
                let ghost q = self.pos as int;
                self.skip_ws();
                proof {
                    lemma_skip_ws(cs, q);
                }
                if self.current_is('<') && self.next_is('/') {
                    proof {
                        lemma_skip_ws_idem(cs, q);
                        assert(element_views(children@) + Seq::<ElementModel>::empty() =~= element_views(children@));
                        assert(children_from(cs, self.pos as int) == Ok::<(Seq<ElementModel>, int), Seq<char>>(
                            (Seq::empty(), self.pos as int),
                        ));
                        assert(children_from(cs, q) == children_from(cs, self.pos as int));
                    }
                    break;
                }
                let child = match self.parse_element() {
                    Ok(c) => c,
                    Err(e) => {
                        return Err(e);
                    },
                };
                let ghost before = element_views(children@);
                let ghost cv = child@;
                children.push(child);
                proof {
                    assert(element_views(children@) =~= before.push(cv));
                    match children_from(cs, self.pos as int) {
                        Ok((rest, e)) => {
                            assert(element_views(children@) + rest =~= before + (seq![cv] + rest));
                        },
                        Err(m) => {},
                    }
                }
            }
            assert(children_from(cs, p4) == Ok::<(Seq<ElementModel>, int), Seq<char>>(
                (element_views(children@), self.pos as int),
            ));
            let ghost p5 = self.pos as int;
            self.skip_ws();
            match self.expect_close(&tag) {
                Ok(()) => {},
                Err(e) => {
                    assert(whole == Err::<(ElementModel, int), Seq<char>>(e.0@));
                    return Err(e);
                },
            }
            proof {
                lemma_close_from(cs, skip_ws_from(cs, p5), tv);
            }
            let el = Element { tag, attrs, children, text: None };
            assert(el@.children =~= element_views(children@));
            return Ok(el);
        }
        self.pos = after_open;
        let start = self.pos;
        proof {
            lemma_find_from(cs, start as int, '<');
        }
        while self.pos < self.chars.len() && self.chars[self.pos] != '<'
            invariant
                self.chars == old(self).chars,
                cs == self.chars@,
                start <= self.pos <= cs.len(),
                find_from(cs, self.pos as int, '<') == find_from(cs, start as int, '<'),
            decreases cs.len() - self.pos,
        {
            self.pos += 1;
        }
        let text = Self::unescape(self.chars, start, self.pos);
        let ghost q = self.pos as int;
        match self.expect_close(&tag) {
            Ok(()) => {},
            Err(e) => {
                return Err(e);
            },
        }
        proof {
            lemma_close_from(cs, q, tag@);
        }
        let el = Element { tag, attrs, children: Vec::new(), text: Some(text) };
        assert(el@.children =~= Seq::<ElementModel>::empty());
        Ok(el)
    }
}

/// `v[lo..hi]` as a string.
fn chars_to_string_at(v: &Vec<char>, lo: usize, hi: usize) -> (res: String)
    requires
        lo <= hi <= v@.len(),
    ensures
        res@ == v@.subrange(lo as int, hi as int),
{
    crate::text::chars_to_string(v, lo, hi)
}

/// `v[lo..hi]` as a vector.
fn slice_chars(v: &Vec<char>, lo: usize, hi: usize) -> (res: Vec<char>)
    requires
        lo <= hi <= v@.len(),
    ensures
        res@ == v@.subrange(lo as int, hi as int),
{
    let mut res: Vec<char> = Vec::new();
    let mut i = lo;
    while i < hi
        invariant
            lo <= i <= hi <= v@.len(),
            res@ == v@.subrange(lo as int, i as int),
        decreases hi - i,
    {
        res.push(v[i]);
        i += 1;
        assert(res@ =~= v@.subrange(lo as int, i as int));
    }
    res
}

/// The element written in `text` (what follows it is not read).
pub fn parse_element(text: &str) -> (res: Result<Element, PresentationError>)
    ensures
        match res {
            Ok(el) => element_from(text@, 0) matches Ok((e, _)) && e == el@,
            Err(e) => element_from(text@, 0) == Err::<(ElementModel, int), Seq<char>>(e.0@),
        },
{
    let chars = to_chars(text);
    let mut p = XmlParser { chars: &chars, pos: 0 };
    let el = p.parse_element();
    match el {
        Ok(el) => {
            p.skip_ws();
            Ok(el)
        },
        Err(e) => Err(e),
    }
}


// ---------------------------------------------------------------------
// The public interface
// ---------------------------------------------------------------------

pub fn to_presentation(graph: &IntentGraph, style: Style) -> (res: String)
    requires
        crate::parser::graph_wf(graph@),
    ensures
        res@ == rendered(graph_element(graph@), style),
{
    render(&graph_to_element(graph), style)
}

/// The graph a presentation text stands for.
pub open spec fn presentation_graph(text: Seq<char>, branch_id: Seq<char>) -> Result<GraphModel, Seq<char>> {
    match element_from(text, 0) {
        Err(m) => Err(m),
        Ok((root, _)) => element_graph(root, branch_id),
    }
}

pub fn from_presentation(text: &str, branch_id: &str) -> (res: Result<IntentGraph, PresentationError>)
    ensures
        match res {
            Ok(g) => presentation_graph(text@, branch_id@) == Ok::<GraphModel, Seq<char>>(g@) && crate::parser::graph_wf(g@),
            Err(e) => presentation_graph(text@, branch_id@) == Err::<GraphModel, Seq<char>>(e.0@),
        },
{
    let root = match parse_element(text) {
        Ok(r) => r,
        Err(e) => {
            return Err(e);
        },
    };
    element_to_graph(&root, branch_id)
}

/// A node written in the indented layout and read back, in its own branch.
pub open spec fn round_trip(n: NodeModel) -> Result<NodeModel, Seq<char>> {
    match element_from(expanded(node_element(n), Seq::empty()), 0) {
        Err(m) => Err(m),
        Ok((e, _)) => element_node(e, n.branch_id),
    }
}

/// Canonical form -> presentation -> canonical form for one node.
pub fn node_round_trip(node: &Node) -> (res: Result<Node, PresentationError>)
    requires
        slots_filled(node.kind, node@.slots),
    ensures
        match res {
            Ok(m) => round_trip(node@) == Ok::<NodeModel, Seq<char>>(m@),
            Err(e) => round_trip(node@) == Err::<NodeModel, Seq<char>>(e.0@),
        },
{
    let text = render(&node_to_element(node), Style::Expanded);
    let el = match parse_element(text.as_str()) {
        Ok(el) => el,
        Err(e) => {
            return Err(e);
        },
    };
    element_to_node(&el, node.branch_id.as_str())
}

} // verus!
