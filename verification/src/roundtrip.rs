//! Reading back what the presentation writes: the indented layout of an
//! element is read back as the same element, and a node written that way
//! reads back as the node the registry builds from the same id, kind and
//! slots.

use vstd::prelude::*;
use crate::presentation::{
    at, attrs_from, attrs_text, amp_entity, children_from, close_from, compact, compact_all, concat, element_from, esc,
    esc_char, expanded,
    expanded_all, find_from, gt_entity, is_name_char, lemma_skip_ws, lemma_skip_ws_idem, lt_entity, name_end,
    quot_entity, skip_ws_from, text_or_empty, unescape, ElementModel,
};
use crate::parser::{
    body_spec, cache_key_of, endpoint_error, new_node, node_decl_spec, nodes_spec, parse_spec, program_spec,
    slot_value_spec, adv, expect_spec, EdgeModel, EdgeType, GraphModel, NodeModel, SlotDataModel,
};
use crate::lexer::{TokenModel, TokenType};
use crate::keyed_map::{keys_sorted, lemma_sorted_elements_exist, sorted_elements};
use crate::presentation::{
    edge_element, edge_type_from_name, edge_type_name, edges_from_elements, element_graph, graph_element,
    nodes_from_elements, presentation_graph, rendered, Style,
};
use crate::presentation::{
    arg_element, arg_pairs, attr_or_empty, element_node, first_attr, first_child, kind_tag, node_element,
    round_trip, slot_element, slot_from_element, slots_from_element,
};
use crate::registry::{kind_from_name, kind_name, kind_slots, kind_subtype, lemma_kind_name_round_trip, Kind, SlotModel, SlotValueModel};
use crate::text::{
    all_ascii, alnum_char, ascii_lower_char, ascii_upper_char, is_prefix, join, lemma_seq_lt_irreflexive, seq_lt,
    upper_of, ws_char,
};

verus! {

/// `w` is written in `cs` at `p`.
pub open spec fn occurs(cs: Seq<char>, p: int, w: Seq<char>) -> bool {
    0 <= p && p + w.len() <= cs.len() && cs.subrange(p, p + w.len()) == w
}

pub proof fn lemma_occurs_split(cs: Seq<char>, p: int, a: Seq<char>, b: Seq<char>)
    requires
        occurs(cs, p, a + b),
    ensures
        occurs(cs, p, a),
        occurs(cs, p + a.len(), b),
{
    assert(cs.subrange(p, p + a.len()) =~= (a + b).subrange(0, a.len() as int));
    assert((a + b).subrange(0, a.len() as int) =~= a);
    assert(cs.subrange(p + a.len(), p + a.len() + b.len()) =~= (a + b).subrange(a.len() as int, (a + b).len() as int));
    assert((a + b).subrange(a.len() as int, (a + b).len() as int) =~= b);
}

pub proof fn lemma_occurs_at(cs: Seq<char>, p: int, w: Seq<char>, k: int)
    requires
        occurs(cs, p, w),
        0 <= k < w.len(),
    ensures
        cs[p + k] == w[k],
{
    assert(cs.subrange(p, p + w.len())[k] == cs[p + k]);
}

/// The characters of the literals the layouts are made of.
pub proof fn lemma_literals()
    ensures
        "<"@ == seq!['<'],
        ">"@ == seq!['>'],
        "/>"@ == seq!['/', '>'],
        " />"@ == seq![' ', '/', '>'],
        "</"@ == seq!['<', '/'],
        ">\n"@ == seq!['>', '\n'],
        "\n"@ == seq!['\n'],
        " "@ == seq![' '],
        "  "@ == seq![' ', ' '],
        "=\""@ == seq!['=', '"'],
        "\""@ == seq!['"'],
        "&amp;"@ == amp_entity(),
        "&lt;"@ == lt_entity(),
        "&gt;"@ == gt_entity(),
        "&quot;"@ == quot_entity(),
{
    reveal_strlit("<");
    reveal_strlit(">");
    reveal_strlit("/>");
    reveal_strlit(" />");
    reveal_strlit("</");
    reveal_strlit(">\n");
    reveal_strlit("\n");
    reveal_strlit(" ");
    reveal_strlit("  ");
    reveal_strlit("=\"");
    reveal_strlit("\"");
    reveal_strlit("&amp;");
    reveal_strlit("&lt;");
    reveal_strlit("&gt;");
    reveal_strlit("&quot;");
    assert("&amp;"@ =~= amp_entity());
    assert("&lt;"@ =~= lt_entity());
    assert("&gt;"@ =~= gt_entity());
    assert("&quot;"@ =~= quot_entity());
}

/// Whitespace is skipped over a run of whitespace up to a character that
/// is not whitespace.
pub proof fn lemma_skip_run(cs: Seq<char>, p: int, k: int)
    requires
        0 <= p,
        0 <= k,
        p + k < cs.len(),
        forall|j: int| p <= j < p + k ==> ws_char(#[trigger] cs[j]),
        !ws_char(cs[p + k]),
    ensures
        skip_ws_from(cs, p) == p + k,
    decreases k,
{
    if k > 0 {
        lemma_skip_run(cs, p + 1, k - 1);
    }
}

/// A name is read up to the first character that cannot be part of one.
pub proof fn lemma_name_run(cs: Seq<char>, p: int, k: int)
    requires
        0 <= p,
        0 <= k,
        p + k < cs.len(),
        forall|j: int| p <= j < p + k ==> is_name_char(#[trigger] cs[j]),
        !is_name_char(cs[p + k]),
    ensures
        name_end(cs, p) == p + k,
    decreases k,
{
    if k > 0 {
        lemma_name_run(cs, p + 1, k - 1);
    }
}

/// The search for `c` passes over a run without it.
pub proof fn lemma_find_run(cs: Seq<char>, p: int, k: int, c: char)
    requires
        0 <= p,
        0 <= k,
        p + k < cs.len(),
        forall|j: int| p <= j < p + k ==> #[trigger] cs[j] != c,
        cs[p + k] == c,
    ensures
        find_from(cs, p, c) == p + k,
    decreases k,
{
    if k > 0 {
        lemma_find_run(cs, p + 1, k - 1, c);
    }
}

/// The escaped text, read from its first character.
pub proof fn lemma_esc_front(s: Seq<char>)
    requires
        s.len() > 0,
    ensures
        esc(s) == esc_char(s[0]) + esc(s.drop_first()),
    decreases s.len(),
{
    if s.len() > 1 {
        lemma_esc_front(s.drop_last());
        assert(s.drop_last().drop_first() =~= s.drop_first().drop_last());
        assert(s.drop_first().last() == s.last());
    } else {
        assert(s.drop_first() =~= Seq::<char>::empty());
        assert(s.drop_last() =~= Seq::<char>::empty());
    }
}

/// Escaped text holds neither `"` nor `<`, starts with `&` or with the
/// text's own first character, and decodes to the text.
pub proof fn lemma_esc(s: Seq<char>)
    ensures
        !esc(s).contains('"'),
        !esc(s).contains('<'),
        s.len() > 0 ==> esc(s).len() > 0 && (esc(s)[0] == '&' || esc(s)[0] == s[0]),
        unescape(esc(s)) == s,
    decreases s.len(),
{
    lemma_literals();
    if s.len() == 0 {
        assert(esc(s) =~= Seq::<char>::empty());
    } else {
        lemma_esc_front(s);
        lemma_esc(s.drop_first());
        let c = s[0];
        let rest = esc(s.drop_first());
        let ec = esc_char(c);
        assert(!ec.contains('"') && !ec.contains('<')) by {
            if ec.contains('"') {
                let i = ec.index_of('"');
                assert(ec[i] == '"');
            }
            if ec.contains('<') {
                let i = ec.index_of('<');
                assert(ec[i] == '<');
            }
        }
        assert(!(ec + rest).contains('"')) by {
            if (ec + rest).contains('"') {
                let i = (ec + rest).index_of('"');
                if i < ec.len() {
                    assert(ec[i] == '"');
                } else {
                    assert(rest[i - ec.len()] == '"');
                }
            }
        }
        assert(!(ec + rest).contains('<')) by {
            if (ec + rest).contains('<') {
                let i = (ec + rest).index_of('<');
                if i < ec.len() {
                    assert(ec[i] == '<');
                } else {
                    assert(rest[i - ec.len()] == '<');
                }
            }
        }
        lemma_unescape_char(c, rest);
        assert(seq![c] + s.drop_first() =~= s);
    }
}

/// Decoding an escaped character and what follows it.
pub proof fn lemma_unescape_char(c: char, rest: Seq<char>)
    ensures
        unescape(esc_char(c) + rest) == seq![c] + unescape(rest),
{
    lemma_literals();
    let s = esc_char(c) + rest;
    if c == '&' {
        assert(s.take(5) =~= amp_entity());
        assert(s[1] == 'a');
        assert(!is_prefix(lt_entity(), s)) by {
            if is_prefix(lt_entity(), s) {
                assert(s.take(4)[1] == s[1]);
            }
        }
        assert(!is_prefix(gt_entity(), s)) by {
            if is_prefix(gt_entity(), s) {
                assert(s.take(4)[1] == s[1]);
            }
        }
        assert(!is_prefix(quot_entity(), s)) by {
            if is_prefix(quot_entity(), s) {
                assert(s.take(6)[1] == s[1]);
            }
        }
        assert(s.skip(5) =~= rest);
    } else if c == '<' {
        assert(s.take(4) =~= lt_entity());
        assert(s.skip(4) =~= rest);
    } else if c == '>' {
        assert(s.take(4) =~= gt_entity());
        assert(s.take(4) != lt_entity()) by {
            assert(s.take(4)[1] == 'g');
        }
        assert(s.skip(4) =~= rest);
    } else if c == '"' {
        assert(s.take(6) =~= quot_entity());
        assert(s.take(4) != lt_entity()) by {
            assert(s.take(4)[1] == 'q');
        }
        assert(s.take(4) != gt_entity()) by {
            assert(s.take(4)[1] == 'q');
        }
        assert(s.skip(6) =~= rest);
    } else {
        assert(s[0] == c);
        assert(!is_prefix(lt_entity(), s)) by {
            if is_prefix(lt_entity(), s) {
                assert(s.take(4)[0] == s[0]);
            }
        }
        assert(!is_prefix(gt_entity(), s)) by {
            if is_prefix(gt_entity(), s) {
                assert(s.take(4)[0] == s[0]);
            }
        }
        assert(!is_prefix(quot_entity(), s)) by {
            if is_prefix(quot_entity(), s) {
                assert(s.take(6)[0] == s[0]);
            }
        }
        assert(!is_prefix(amp_entity(), s)) by {
            if is_prefix(amp_entity(), s) {
                assert(s.take(5)[0] == s[0]);
            }
        }
        assert(s.skip(1) =~= rest);
    }
}


/// A character of the names the presentation writes: a lower-case ASCII
/// letter or `_`.
/// A character of a name the layout writes and the reader reads back: an
/// ASCII letter or digit, `_`, `-` or `:`.
pub open spec fn word_char(c: char) -> bool {
    ('a' <= c <= 'z') || ('A' <= c <= 'Z') || ('0' <= c <= '9') || c == '_' || c == '-' || c == ':'
}

pub open spec fn word(s: Seq<char>) -> bool {
    s.len() > 0 && forall|i: int| 0 <= i < s.len() ==> word_char(#[trigger] s[i])
}

pub proof fn lemma_word_char(c: char)
    requires
        word_char(c),
    ensures
        is_name_char(c),
        !ws_char(c),
        c != '/' && c != '<' && c != '>' && c != '"' && c != '=',
{
}

/// The characters that end a name and are not whitespace.
pub proof fn lemma_markup_chars()
    ensures
        !is_name_char(' ') && ws_char(' ') && ws_char('\n') && !is_name_char('\n'),
        !is_name_char('=') && !ws_char('='),
        !is_name_char('>') && !ws_char('>'),
        !is_name_char('/') && !ws_char('/'),
        !is_name_char('"') && !ws_char('"'),
        !ws_char('<') && !ws_char('&'),
{
    assert((' ' as u32) == 32);
    assert(('=' as u32) == 61);
    assert(('>' as u32) == 62);
    assert(('/' as u32) == 47);
    assert(('"' as u32) == 34);
    assert(('<' as u32) == 60);
    assert(('&' as u32) == 38);
    assert(('\n' as u32) == 10);
}

/// One attribute as the layout writes it.
pub open spec fn attr_text(a: (Seq<char>, Seq<char>)) -> Seq<char> {
    " "@ + a.0 + "=\""@ + esc(a.1) + "\""@
}

pub proof fn lemma_attrs_text_front(a: Seq<(Seq<char>, Seq<char>)>)
    requires
        a.len() > 0,
    ensures
        attrs_text(a) == attr_text(a[0]) + attrs_text(a.drop_first()),
    decreases a.len(),
{
    if a.len() > 1 {
        lemma_attrs_text_front(a.drop_last());
        assert(a.drop_last().drop_first() =~= a.drop_first().drop_last());
        assert(a.drop_first().last() == a.last());
        assert(attrs_text(a) =~= attr_text(a[0]) + attrs_text(a.drop_first()));
    } else {
        assert(a.drop_first() =~= Seq::<(Seq<char>, Seq<char>)>::empty());
        assert(a.drop_last() =~= Seq::<(Seq<char>, Seq<char>)>::empty());
        assert(attrs_text(a) =~= attr_text(a[0]) + attrs_text(a.drop_first()));
    }
}

/// The attributes the layout writes are read back, up to the `>` or `/`
/// that follows them (after whitespace).
pub proof fn lemma_read_attrs(a: Seq<(Seq<char>, Seq<char>)>, cs: Seq<char>, p: int)
    requires
        forall|i: int| 0 <= i < a.len() ==> word(#[trigger] a[i].0),
        occurs(cs, p, attrs_text(a)),
        skip_ws_from(cs, p + attrs_text(a).len()) < cs.len(),
        cs[skip_ws_from(cs, p + attrs_text(a).len())] == '>' || cs[skip_ws_from(cs, p + attrs_text(a).len())] == '/',
    ensures
        attrs_from(cs, p) == Ok::<(Seq<(Seq<char>, Seq<char>)>, int), Seq<char>>(
            (a, skip_ws_from(cs, p + attrs_text(a).len())),
        ),
    decreases a.len(),
{
    lemma_literals();
    lemma_markup_chars();
    if a.len() == 0 {
        assert(attrs_text(a).len() == 0);
        assert(a =~= Seq::<(Seq<char>, Seq<char>)>::empty());
    } else {
        lemma_attrs_text_front(a);
        let x = a[0];
        let rest = a.drop_first();
        let name = x.0;
        let ev = esc(x.1);
        lemma_esc(x.1);
        let t = attr_text(x);
        lemma_occurs_split(cs, p, t, attrs_text(rest));
        let a1 = " "@ + name;
        let a2 = a1 + "=\""@;
        let a3 = a2 + ev;
        lemma_occurs_split(cs, p, a3, "\""@);
        lemma_occurs_split(cs, p, a2, ev);
        lemma_occurs_split(cs, p, a1, "=\""@);
        lemma_occurs_split(cs, p, " "@, name);
        let p1 = p + 1;
        let n1 = p1 + name.len();
        let q = n1 + 2 + ev.len();
        lemma_occurs_at(cs, p, " "@, 0);
        lemma_occurs_at(cs, n1, "=\""@, 0);
        lemma_occurs_at(cs, n1, "=\""@, 1);
        lemma_occurs_at(cs, q, "\""@, 0);
        assert(word(name));
        assert forall|j: int| p1 <= j < n1 implies is_name_char(#[trigger] cs[j]) && !ws_char(cs[j]) by {
            lemma_occurs_at(cs, p1, name, j - p1);
            lemma_word_char(name[j - p1]);
        }
        lemma_occurs_at(cs, p1, name, 0);
        lemma_word_char(name[0]);
        lemma_skip_run(cs, p, 1);
        lemma_name_run(cs, p1, name.len() as int);
        lemma_skip_run(cs, n1, 0);
        lemma_skip_run(cs, n1 + 1, 0);
        assert forall|j: int| n1 + 2 <= j < q implies #[trigger] cs[j] != '"' by {
            lemma_occurs_at(cs, n1 + 2, ev, j - (n1 + 2));
            if ev[j - (n1 + 2)] == '"' {
                assert(ev.contains('"'));
            }
        }
        lemma_find_run(cs, n1 + 2, ev.len() as int, '"');
        assert(q + 1 == p + t.len());
        assert forall|i: int| 0 <= i < rest.len() implies word(#[trigger] rest[i].0) by {
            assert(rest[i] == a[i + 1]);
        }
        lemma_read_attrs(rest, cs, q + 1);
        assert(cs.subrange(p1, n1) == name);
        assert(cs.subrange(n1 + 2, q) == ev);
        assert(seq![(name, x.1)] + rest =~= a);
    }
}


/// A closing tag as the layout writes it is read back.
pub proof fn lemma_read_close(cs: Seq<char>, q: int, tag: Seq<char>)
    requires
        word(tag),
        occurs(cs, q, "</"@ + tag + ">"@),
    ensures
        close_from(cs, q, tag) == Ok::<int, Seq<char>>(q + tag.len() + 3),
{
    lemma_literals();
    lemma_markup_chars();
    lemma_occurs_split(cs, q, "</"@ + tag, ">"@);
    lemma_occurs_split(cs, q, "</"@, tag);
    lemma_occurs_at(cs, q, "</"@, 0);
    lemma_occurs_at(cs, q, "</"@, 1);
    lemma_occurs_at(cs, q + 2 + tag.len(), ">"@, 0);
    assert forall|j: int| q + 2 <= j < q + 2 + tag.len() implies is_name_char(#[trigger] cs[j]) by {
        lemma_occurs_at(cs, q + 2, tag, j - (q + 2));
        lemma_word_char(tag[j - (q + 2)]);
    }
    lemma_name_run(cs, q + 2, tag.len() as int);
    lemma_skip_run(cs, q + 2 + tag.len(), 0);
    assert(cs.subrange(q + 2, q + 2 + tag.len()) == tag);
}

/// Reading an element starts by skipping whitespace.
pub proof fn lemma_element_from_skip(cs: Seq<char>, p: int)
    ensures
        element_from(cs, p) == element_from(cs, skip_ws_from(cs, p)),
{
    lemma_skip_ws_idem(cs, p);
}

/// Reading children starts by skipping whitespace.
pub proof fn lemma_children_from_skip(cs: Seq<char>, p: int)
    ensures
        children_from(cs, p) == children_from(cs, skip_ws_from(cs, p)),
{
    lemma_skip_ws_idem(cs, p);
}

/// The parts joined, read from the first part.
pub proof fn lemma_join_front(parts: Seq<Seq<char>>, sep: Seq<char>)
    requires
        parts.len() > 0,
    ensures
        parts.len() == 1 ==> join(parts, sep) == parts[0],
        parts.len() > 1 ==> join(parts, sep) == parts[0] + sep + join(parts.subrange(1, parts.len() as int), sep),
    decreases parts.len(),
{
    if parts.len() > 2 {
        lemma_join_front(parts.drop_last(), sep);
        assert(parts.drop_last().subrange(1, parts.len() - 1) =~= parts.subrange(1, parts.len() as int).drop_last());
        let tail = parts.subrange(1, parts.len() as int);
        assert(tail.last() == parts.last());
        assert(tail.len() > 1);
        assert(join(tail, sep) == join(tail.drop_last(), sep) + sep + tail.last());
        assert(tail.drop_last() =~= parts.drop_last().subrange(1, parts.len() - 1));
        assert(join(parts, sep) == join(parts.drop_last(), sep) + sep + parts.last());
        assert(parts.drop_last()[0] == parts[0]);
        let a = join(tail.drop_last(), sep);
        assert(join(parts.drop_last(), sep) == parts[0] + sep + a);
        assert(join(parts, sep) == parts[0] + sep + a + sep + parts.last());
        assert(join(tail, sep) == a + sep + parts.last());
        assert(parts[0] + sep + a + sep + parts.last() =~= parts[0] + sep + (a + sep + parts.last()));
        assert(join(parts, sep) =~= parts[0] + sep + join(tail, sep));
    } else if parts.len() == 2 {
        assert(parts.drop_last() =~= seq![parts[0]]);
        assert(parts.subrange(1, 2) =~= seq![parts[1]]);
        assert(join(parts.drop_last(), sep) == parts[0]);
        assert(join(parts.subrange(1, 2), sep) == parts[1]);
        assert(join(parts, sep) =~= parts[0] + sep + join(parts.subrange(1, parts.len() as int), sep));
    }
}

pub open spec fn spaces(pad: Seq<char>) -> bool {
    forall|i: int| 0 <= i < pad.len() ==> #[trigger] pad[i] == ' '
}

/// Whitespace is skipped at most up to the first character that is not
/// whitespace.
pub proof fn lemma_skip_ws_upto(cs: Seq<char>, p: int, q: int)
    requires
        0 <= p <= q < cs.len(),
        !ws_char(cs[q]),
    ensures
        p <= skip_ws_from(cs, p) <= q,
    decreases q - p,
{
    if p < q && ws_char(cs[p]) {
        lemma_skip_ws_upto(cs, p + 1, q);
    }
}

/// An element the layout writes and the reader reads back: tags and
/// attribute names are words, and an element with children has no text
/// (the indented layout does not write it).
pub open spec fn plain(e: ElementModel) -> bool
    decreases e,
{
    &&& word(e.tag)
    &&& forall|i: int| 0 <= i < e.attrs.len() ==> word(#[trigger] e.attrs[i].0)
    &&& e.children.len() > 0 ==> {
        &&& e.text is None
        &&& forall|i: int| 0 <= i < e.children.len() ==> plain(#[trigger] e.children[i])
    }
}

/// The first characters of the indented layout: the indentation, `<` and
/// the first letter of the tag.
pub proof fn lemma_expanded_head(e: ElementModel, pad: Seq<char>)
    requires
        word(e.tag),
    ensures
        expanded(e, pad).len() >= pad.len() + 2,
        forall|k: int| 0 <= k < pad.len() ==> #[trigger] expanded(e, pad)[k] == pad[k],
        expanded(e, pad)[pad.len() as int] == '<',
        expanded(e, pad)[pad.len() as int + 1] == e.tag[0],
{
    lemma_literals();
    let head = pad + "<"@ + e.tag + attrs_text(e.attrs);
    let x = expanded(e, pad);
    assert(x.take(head.len() as int) =~= head) by {
        if e.children.len() == 0 {
            match e.text {
                Some(t) => {
                    assert(x =~= head + (">"@ + esc(t) + "</"@ + e.tag + ">"@));
                },
                None => {
                    assert(x =~= head + "/>"@);
                },
            }
        } else {
            assert(x =~= head + (">\n"@ + join(expanded_all(e.children, pad + "  "@), "\n"@) + "\n"@ + pad + "</"@
                + e.tag + ">"@));
        }
    }
    assert forall|k: int| 0 <= k < pad.len() implies #[trigger] x[k] == pad[k] by {
        assert(x.take(head.len() as int)[k] == x[k]);
    }
    assert(x.take(head.len() as int)[pad.len() as int] == x[pad.len() as int]);
    assert(x.take(head.len() as int)[pad.len() as int + 1] == x[pad.len() as int + 1]);
}


/// The opening of an element as the layout writes it (indentation, `<`,
/// tag, attributes) is read back, up to the `>` or `/` that follows.
pub proof fn lemma_read_head(e: ElementModel, pad: Seq<char>, cs: Seq<char>, p: int, rem: Seq<char>)
    requires
        word(e.tag),
        forall|i: int| 0 <= i < e.attrs.len() ==> word(#[trigger] e.attrs[i].0),
        spaces(pad),
        occurs(cs, p, pad + "<"@ + e.tag + attrs_text(e.attrs) + rem),
        rem.len() > 0,
        rem[0] == '>' || rem[0] == '/' || (rem.len() > 1 && rem[0] == ' ' && rem[1] == '/'),
    ensures
        skip_ws_from(cs, p) == p + pad.len(),
        at(cs, p + pad.len(), '<'),
        name_end(cs, p + pad.len() + 1) == p + pad.len() + 1 + e.tag.len(),
        cs.subrange(p + pad.len() + 1, p + pad.len() + 1 + e.tag.len()) == e.tag,
        attrs_from(cs, p + pad.len() + 1 + e.tag.len()) == Ok::<(Seq<(Seq<char>, Seq<char>)>, int), Seq<char>>(
            (e.attrs, skip_ws_from(cs, p + pad.len() + 1 + e.tag.len() + attrs_text(e.attrs).len())),
        ),
        skip_ws_from(cs, p + pad.len() + 1 + e.tag.len() + attrs_text(e.attrs).len()) == p + pad.len() + 1
            + e.tag.len() + attrs_text(e.attrs).len() + if rem[0] == ' ' { 1int } else { 0int },
        occurs(cs, p + pad.len() + 1 + e.tag.len() + attrs_text(e.attrs).len(), rem),
{
    lemma_literals();
    lemma_markup_chars();
    let tag = e.tag;
    let at_ = attrs_text(e.attrs);
    let head = pad + "<"@ + tag + at_;
    let pl = p + pad.len();
    let t0 = pl + 1;
    let t = t0 + tag.len();
    let p2 = t + at_.len();
    lemma_occurs_split(cs, p, head, rem);
    lemma_occurs_split(cs, p, pad + "<"@ + tag, at_);
    lemma_occurs_split(cs, p, pad + "<"@, tag);
    lemma_occurs_split(cs, p, pad, "<"@);
    lemma_occurs_at(cs, pl, "<"@, 0);
    assert forall|j: int| p <= j < pl implies ws_char(#[trigger] cs[j]) by {
        lemma_occurs_at(cs, p, pad, j - p);
    }
    lemma_skip_run(cs, p, pad.len() as int);
    assert forall|j: int| t0 <= j < t implies is_name_char(#[trigger] cs[j]) by {
        lemma_occurs_at(cs, t0, tag, j - t0);
        lemma_word_char(tag[j - t0]);
    }
    lemma_occurs_at(cs, p2, rem, 0);
    if e.attrs.len() > 0 {
        lemma_attrs_text_front(e.attrs);
        lemma_occurs_at(cs, t, at_, 0);
    }
    assert(!is_name_char(cs[t]));
    lemma_name_run(cs, t0, tag.len() as int);
    if rem[0] == ' ' {
        lemma_occurs_at(cs, p2, rem, 1);
        lemma_skip_run(cs, p2, 1);
    } else {
        lemma_skip_run(cs, p2, 0);
    }
    lemma_read_attrs(e.attrs, cs, t);
}

/// A childless element with a text is read back.
pub proof fn lemma_read_text_leaf(e: ElementModel, pad: Seq<char>, cs: Seq<char>, p: int, tx: Seq<char>)
    requires
        plain(e),
        e.children.len() == 0,
        e.text == Some(tx),
        spaces(pad),
        occurs(cs, p, expanded(e, pad)),
    ensures
        element_from(cs, p) == Ok::<(ElementModel, int), Seq<char>>((e, p + expanded(e, pad).len())),
{
    lemma_literals();
    lemma_markup_chars();
    let tag = e.tag;
    let ev = esc(tx);
    lemma_esc(tx);
    let head = pad + "<"@ + tag + attrs_text(e.attrs);
    let rem = ">"@ + ev + ("</"@ + tag + ">"@);
    assert(expanded(e, pad) =~= head + rem);
    lemma_read_head(e, pad, cs, p, rem);
    let p2 = p + head.len();
    let q = p2 + 1 + ev.len();
    lemma_occurs_at(cs, p2, rem, 0);
    lemma_occurs_split(cs, p2, ">"@ + ev, "</"@ + tag + ">"@);
    lemma_occurs_split(cs, p2, ">"@, ev);
    lemma_occurs_split(cs, q, "</"@ + tag, ">"@);
    lemma_occurs_split(cs, q, "</"@, tag);
    lemma_occurs_at(cs, q, "</"@, 0);
    lemma_occurs_at(cs, q, "</"@, 1);
    assert forall|j: int| p2 + 1 <= j < q implies #[trigger] cs[j] != '<' by {
        lemma_occurs_at(cs, p2 + 1, ev, j - (p2 + 1));
        if ev[j - (p2 + 1)] == '<' {
            assert(ev.contains('<'));
        }
    }
    lemma_skip_ws_upto(cs, p2 + 1, q);
    lemma_find_run(cs, p2 + 1, ev.len() as int, '<');
    lemma_read_close(cs, q, tag);
    assert(cs.subrange(p2 + 1, q) == ev);
    assert(e.children =~= Seq::<ElementModel>::empty());
}

/// The indented layout of a plain element, at any indentation of spaces,
/// is read back as the element, up to its last character.
#[verifier::rlimit(30)]
pub proof fn lemma_read_expanded(e: ElementModel, pad: Seq<char>, cs: Seq<char>, p: int)
    requires
        plain(e),
        spaces(pad),
        occurs(cs, p, expanded(e, pad)),
    ensures
        element_from(cs, p) == Ok::<(ElementModel, int), Seq<char>>((e, p + expanded(e, pad).len())),
    decreases e,
{
    lemma_literals();
    lemma_markup_chars();
    let tag = e.tag;
    let head = pad + "<"@ + tag + attrs_text(e.attrs);
    if e.children.len() == 0 {
        match e.text {
            None => {
                assert(expanded(e, pad) =~= head + "/>"@);
                lemma_read_head(e, pad, cs, p, "/>"@);
                lemma_occurs_at(cs, p + head.len(), "/>"@, 1);
                assert(e.children =~= Seq::<ElementModel>::empty());
            },
            Some(tx) => {
                lemma_read_text_leaf(e, pad, cs, p, tx);
            },
        }
    } else {
        let pad2 = pad + "  "@;
        let jn = join(expanded_all(e.children, pad2), "\n"@);
        let tail = ("\n"@ + pad) + ("</"@ + tag + ">"@);
        let rem = ">\n"@ + (jn + tail);
        assert(expanded(e, pad) =~= head + rem);
        lemma_read_head(e, pad, cs, p, rem);
        let p2 = p + head.len();
        let s = p2 + 2;
        lemma_occurs_split(cs, p2, ">\n"@, jn + tail);
        lemma_occurs_at(cs, p2, ">\n"@, 0);
        lemma_occurs_at(cs, p2, ">\n"@, 1);
        lemma_occurs_split(cs, s, jn, tail);
        let c0 = s + jn.len();
        lemma_occurs_split(cs, c0, "\n"@ + pad, "</"@ + tag + ">"@);
        let c_pos = c0 + 1 + pad.len();
        lemma_occurs_split(cs, c_pos, "</"@ + tag, ">"@);
        lemma_occurs_split(cs, c_pos, "</"@, tag);
        lemma_occurs_at(cs, c_pos, "</"@, 0);
        lemma_occurs_at(cs, c_pos, "</"@, 1);
        assert forall|j: int| c0 <= j < c_pos implies ws_char(#[trigger] cs[j]) by {
            lemma_occurs_at(cs, c0, "\n"@ + pad, j - c0);
        }
        lemma_skip_run(cs, c0, 1 + pad.len() as int);
        assert(spaces(pad2));
        lemma_read_children(e.children, pad2, cs, s, c_pos);
        assert(skip_ws_from(cs, p2 + 1) == skip_ws_from(cs, s));
        lemma_skip_run(cs, c_pos, 0);
        lemma_read_close(cs, c_pos, tag);
    }
}

/// The children written one per line, each at indentation `pad`, are read
/// back, up to the closing tag that follows them.
pub proof fn lemma_read_children(ch: Seq<ElementModel>, pad: Seq<char>, cs: Seq<char>, s: int, c_pos: int)
    requires
        ch.len() > 0,
        forall|i: int| 0 <= i < ch.len() ==> plain(#[trigger] ch[i]),
        spaces(pad),
        occurs(cs, s, join(expanded_all(ch, pad), "\n"@)),
        skip_ws_from(cs, s + join(expanded_all(ch, pad), "\n"@).len()) == c_pos,
        at(cs, c_pos, '<'),
        at(cs, c_pos + 1, '/'),
    ensures
        children_from(cs, skip_ws_from(cs, s)) == Ok::<(Seq<ElementModel>, int), Seq<char>>((ch, c_pos)),
        at(cs, skip_ws_from(cs, s), '<'),
        !at(cs, skip_ws_from(cs, s) + 1, '/'),
    decreases ch,
{
    lemma_literals();
    lemma_markup_chars();
    let parts = expanded_all(ch, pad);
    let jn = join(parts, "\n"@);
    let e0 = parts[0];
    assert(e0 == expanded(ch[0], pad));
    lemma_join_front(parts, "\n"@);
    assert(plain(ch[0]));
    lemma_expanded_head(ch[0], pad);
    let s4 = s + pad.len();
    if parts.len() == 1 {
        assert(occurs(cs, s, e0));
    } else {
        lemma_occurs_split(cs, s, e0 + "\n"@, join(parts.subrange(1, parts.len() as int), "\n"@));
        lemma_occurs_split(cs, s, e0, "\n"@);
    }
    assert(occurs(cs, s, e0));
    assert forall|j: int| s <= j < s4 implies ws_char(#[trigger] cs[j]) by {
        lemma_occurs_at(cs, s, e0, j - s);
    }
    lemma_occurs_at(cs, s, e0, pad.len() as int);
    lemma_occurs_at(cs, s, e0, pad.len() as int + 1);
    lemma_word_char(ch[0].tag[0]);
    lemma_skip_run(cs, s, pad.len() as int);
    lemma_skip_run(cs, s4, 0);
    lemma_element_from_skip(cs, s);
    lemma_read_expanded(ch[0], pad, cs, s);
    let p2 = s + e0.len();
    if parts.len() == 1 {
        assert(p2 == s + jn.len());
        lemma_skip_ws(cs, p2);
        lemma_skip_ws_idem(cs, p2);
        assert(children_from(cs, p2) == Ok::<(Seq<ElementModel>, int), Seq<char>>((Seq::empty(), c_pos)));
        assert(seq![ch[0]] + Seq::<ElementModel>::empty() =~= ch);
    } else {
        let rest = ch.subrange(1, ch.len() as int);
        assert(expanded_all(rest, pad) =~= parts.subrange(1, parts.len() as int));
        let jr = join(parts.subrange(1, parts.len() as int), "\n"@);
        lemma_occurs_at(cs, p2, "\n"@, 0);
        assert(skip_ws_from(cs, p2) == skip_ws_from(cs, p2 + 1));
        lemma_children_from_skip(cs, p2);
        assert(p2 + 1 + jr.len() == s + jn.len());
        assert forall|i: int| 0 <= i < rest.len() implies plain(#[trigger] rest[i]) by {
            assert(rest[i] == ch[i + 1]);
        }
        lemma_read_children(rest, pad, cs, p2 + 1, c_pos);
        assert(seq![ch[0]] + rest =~= ch);
    }
}


/// The parts one after the other, read from the first part.
pub proof fn lemma_concat_front(parts: Seq<Seq<char>>)
    requires
        parts.len() > 0,
    ensures
        concat(parts) == parts[0] + concat(parts.drop_first()),
    decreases parts.len(),
{
    if parts.len() == 1 {
        assert(parts.drop_first() =~= Seq::<Seq<char>>::empty());
        assert(parts.drop_last() =~= Seq::<Seq<char>>::empty());
        assert(concat(parts) =~= parts[0] + concat(parts.drop_first()));
    } else {
        lemma_concat_front(parts.drop_last());
        assert(parts.drop_last().drop_first() =~= parts.drop_first().drop_last());
        assert(parts.drop_first().last() == parts.last());
        assert(concat(parts) =~= parts[0] + concat(parts.drop_first()));
    }
}

/// The first characters of the one-line layout: `<` and the first letter
/// of the tag.
pub proof fn lemma_compact_head(e: ElementModel)
    requires
        word(e.tag),
    ensures
        compact(e).len() >= 2,
        compact(e)[0] == '<',
        compact(e)[1] == e.tag[0],
{
    lemma_literals();
    let open = "<"@ + e.tag + attrs_text(e.attrs);
    let x = compact(e);
    if e.children.len() == 0 && e.text is None {
        assert(x =~= open + " />"@);
    } else {
        assert(x =~= open + (">"@ + esc(text_or_empty(e.text)) + concat(compact_all(e.children)) + "</"@ + e.tag
            + ">"@));
    }
    assert(x[0] == open[0]);
    assert(x[1] == open[1]);
}

/// The one-line layout of a plain element is read back as the element, up
/// to its last character.
#[verifier::rlimit(30)]
pub proof fn lemma_read_compact(e: ElementModel, cs: Seq<char>, p: int)
    requires
        plain(e),
        occurs(cs, p, compact(e)),
    ensures
        element_from(cs, p) == Ok::<(ElementModel, int), Seq<char>>((e, p + compact(e).len())),
    decreases e,
{
    lemma_literals();
    lemma_markup_chars();
    let tag = e.tag;
    let head = "<"@ + tag + attrs_text(e.attrs);
    let pad = Seq::<char>::empty();
    assert(pad + "<"@ + tag + attrs_text(e.attrs) =~= head);
    assert(spaces(pad));
    assert(concat(compact_all(Seq::<ElementModel>::empty())) =~= Seq::<char>::empty());
    if e.children.len() == 0 {
        assert(e.children =~= Seq::<ElementModel>::empty());
        match e.text {
            None => {
                assert(compact(e) =~= head + " />"@);
                lemma_read_head(e, pad, cs, p, " />"@);
                lemma_occurs_at(cs, p + head.len(), " />"@, 1);
                lemma_occurs_at(cs, p + head.len(), " />"@, 2);
            },
            Some(tx) => {
                assert(compact(e) =~= expanded(e, pad));
                lemma_read_text_leaf(e, pad, cs, p, tx);
            },
        }
    } else {
        let jn = concat(compact_all(e.children));
        let tail = "</"@ + tag + ">"@;
        let rem = ">"@ + (jn + tail);
        assert(esc(text_or_empty(e.text)) =~= Seq::<char>::empty());
        assert(compact(e) =~= head + rem);
        lemma_read_head(e, pad, cs, p, rem);
        let p2 = p + head.len();
        let s = p2 + 1;
        lemma_occurs_split(cs, p2, ">"@, jn + tail);
        lemma_occurs_at(cs, p2, ">"@, 0);
        lemma_occurs_split(cs, s, jn, tail);
        let c_pos = s + jn.len();
        lemma_occurs_split(cs, c_pos, "</"@ + tag, ">"@);
        lemma_occurs_split(cs, c_pos, "</"@, tag);
        lemma_occurs_at(cs, c_pos, "</"@, 0);
        lemma_occurs_at(cs, c_pos, "</"@, 1);
        lemma_read_compact_children(e.children, cs, s, c_pos);
        lemma_skip_run(cs, s, 0);
        lemma_skip_run(cs, c_pos, 0);
        lemma_read_close(cs, c_pos, tag);
    }
}

/// The children written one after the other in the one-line layout are
/// read back, up to the closing tag that follows them.
pub proof fn lemma_read_compact_children(ch: Seq<ElementModel>, cs: Seq<char>, s: int, c_pos: int)
    requires
        ch.len() > 0,
        forall|i: int| 0 <= i < ch.len() ==> plain(#[trigger] ch[i]),
        occurs(cs, s, concat(compact_all(ch))),
        c_pos == s + concat(compact_all(ch)).len(),
        at(cs, c_pos, '<'),
        at(cs, c_pos + 1, '/'),
    ensures
        children_from(cs, s) == Ok::<(Seq<ElementModel>, int), Seq<char>>((ch, c_pos)),
        at(cs, s, '<'),
        !at(cs, s + 1, '/'),
    decreases ch,
{
    lemma_literals();
    lemma_markup_chars();
    let parts = compact_all(ch);
    let e0 = parts[0];
    assert(e0 == compact(ch[0]));
    lemma_concat_front(parts);
    lemma_occurs_split(cs, s, e0, concat(parts.drop_first()));
    assert(plain(ch[0]));
    lemma_compact_head(ch[0]);
    lemma_occurs_at(cs, s, e0, 0);
    lemma_occurs_at(cs, s, e0, 1);
    lemma_word_char(ch[0].tag[0]);
    lemma_skip_run(cs, s, 0);
    lemma_read_compact(ch[0], cs, s);
    let p2 = s + e0.len();
    if ch.len() == 1 {
        assert(parts.drop_first() =~= Seq::<Seq<char>>::empty());
        assert(concat(parts.drop_first()) =~= Seq::<char>::empty());
        lemma_skip_run(cs, c_pos, 0);
        assert(children_from(cs, p2) == Ok::<(Seq<ElementModel>, int), Seq<char>>((Seq::empty(), c_pos)));
        assert(seq![ch[0]] + Seq::<ElementModel>::empty() =~= ch);
    } else {
        let rest = ch.subrange(1, ch.len() as int);
        assert(compact_all(rest) =~= parts.drop_first());
        assert forall|i: int| 0 <= i < rest.len() implies plain(#[trigger] rest[i]) by {
            assert(rest[i] == ch[i + 1]);
        }
        lemma_read_compact_children(rest, cs, p2, c_pos);
        assert(seq![ch[0]] + rest =~= ch);
    }
}


/// Upper-casing a word (ASCII) undoes lower-casing a name of upper-case
/// ASCII letters and `_`.
proof fn lemma_case_round_trip(name: Seq<char>)
    requires
        name.len() > 0,
        forall|i: int| 0 <= i < name.len() ==> ('A' <= #[trigger] name[i] <= 'Z') || name[i] == '_',
    ensures
        word(name.map_values(|c: char| ascii_lower_char(c))),
        all_ascii(name.map_values(|c: char| ascii_lower_char(c))),
        name.map_values(|c: char| ascii_lower_char(c)).map_values(|c: char| ascii_upper_char(c)) == name,
{
    let low = name.map_values(|c: char| ascii_lower_char(c));
    assert forall|i: int| 0 <= i < low.len() implies word_char(#[trigger] low[i]) && (low[i] as u32) < 128
        && ascii_upper_char(low[i]) == name[i] by {
        let c = name[i];
        if c != '_' {
            assert(('A' as u32) == 65 && ('Z' as u32) == 90 && ('a' as u32) == 97 && ('z' as u32) == 122);
            assert(((c as u32) + 32) as char == ascii_lower_char(c));
            assert('a' <= low[i] <= 'z');
            assert(ascii_upper_char(low[i]) == (((low[i] as u32) - 32) as char));
        }
    }
    assert(low.map_values(|c: char| ascii_upper_char(c)) =~= name);
}

/// The registry's names as the presentation writes them: kind tags and
/// slot names are words, the slot names of a kind are distinct, and
/// upper-casing a kind's tag gives its name.
pub proof fn lemma_kind_words(k: Kind)
    ensures
        word(kind_tag(k)),
        upper_of(kind_tag(k)) == kind_name(k),
        kind_slots(k).len() > 0,
        forall|j: int| 0 <= j < kind_slots(k).len() ==> word(#[trigger] kind_slots(k)[j].name),
        forall|i: int, j: int| 0 <= i < j < kind_slots(k).len() ==> #[trigger] kind_slots(k)[i].name != #[trigger] kind_slots(k)[j].name,
{
    reveal_strlit("ROLE");
    reveal_strlit("TASK");
    reveal_strlit("FILTER");
    reveal_strlit("STEP");
    reveal_strlit("CLASSIFY");
    reveal_strlit("SPAWN");
    reveal_strlit("TOOL");
    reveal_strlit("DOCUMENT");
    reveal_strlit("REJECT_MARK");
    reveal_strlit("as");
    reveal_strlit("given");
    reveal_strlit("produce");
    reveal_strlit("where");
    reveal_strlit("into");
    reveal_strlit("do");
    reveal_strlit("input");
    reveal_strlit("labels");
    reveal_strlit("plan");
    reveal_strlit("tool");
    reveal_strlit("args");
    reveal_strlit("from");
    reveal_strlit("cause");
    reveal_strlit("reason");
    let name = kind_name(k);
    assert forall|i: int| 0 <= i < name.len() implies ('A' <= #[trigger] name[i] <= 'Z') || name[i] == '_' by {
    }
    lemma_case_round_trip(name);
    let ss = kind_slots(k);
    assert forall|j: int| 0 <= j < ss.len() implies word(#[trigger] ss[j].name) by {
        assert forall|i: int| 0 <= i < ss[j].name.len() implies word_char(#[trigger] ss[j].name[i]) by {
        }
    }
    assert forall|i: int, j: int| 0 <= i < j < ss.len() implies #[trigger] ss[i].name != #[trigger] ss[j].name by {
        if ss[i].name.len() == ss[j].name.len() {
            assert(ss[i].name[0] != ss[j].name[0]);
        }
    }
}


/// A slot value the presentation keeps whole: of the slot's type, and an
/// option of a closed set among its options.
pub open spec fn slot_fits(s: SlotModel, d: SlotDataModel) -> bool {
    match s.value {
        SlotValueModel::Str => d matches SlotDataModel::Str(v),
        SlotValueModel::Ident => d matches SlotDataModel::Ident(v),
        SlotValueModel::Enum(options) => d matches SlotDataModel::Ident(v) && options.contains(v),
        SlotValueModel::Cond => d is Cond,
        SlotValueModel::Args => d is Args,
    }
}

/// A node the presentation keeps whole: exactly the registry's slots of
/// its kind, each value fitting its slot.
pub open spec fn presentable(n: NodeModel) -> bool {
    &&& forall|k: Seq<char>|
        #[trigger] n.slots.dom().contains(k) <==> exists|j: int| 0 <= j < kind_slots(n.kind).len() && kind_slots(n.kind)[j].name == k
    &&& forall|j: int|
        0 <= j < kind_slots(n.kind).len() ==> slot_fits(kind_slots(n.kind)[j], n.slots[#[trigger] kind_slots(n.kind)[j].name])
}

proof fn lemma_attr_words()
    ensures
        word("id"@),
        word("field"@),
        word("op"@),
        word("value"@),
        word("name"@),
        word("arg"@),
        "field"@ != "op"@ && "field"@ != "value"@ && "op"@ != "value"@ && "name"@ != "value"@,
{
    reveal_strlit("id");
    reveal_strlit("field");
    reveal_strlit("op");
    reveal_strlit("value");
    reveal_strlit("name");
    reveal_strlit("arg");
    assert forall|i: int| 0 <= i < "id"@.len() implies word_char(#[trigger] "id"@[i]) by {}
    assert forall|i: int| 0 <= i < "field"@.len() implies word_char(#[trigger] "field"@[i]) by {}
    assert forall|i: int| 0 <= i < "op"@.len() implies word_char(#[trigger] "op"@[i]) by {}
    assert forall|i: int| 0 <= i < "value"@.len() implies word_char(#[trigger] "value"@[i]) by {}
    assert forall|i: int| 0 <= i < "name"@.len() implies word_char(#[trigger] "name"@[i]) by {}
    assert forall|i: int| 0 <= i < "arg"@.len() implies word_char(#[trigger] "arg"@[i]) by {}
    assert("field"@[0] != "op"@[0]);
    assert("field"@[0] != "value"@[0]);
    assert("op"@[0] != "value"@[0]);
    assert("name"@[0] != "value"@[0]);
}

/// The element of a presentable node is plain.
pub proof fn lemma_node_element_plain(n: NodeModel)
    requires
        presentable(n),
    ensures
        plain(node_element(n)),
{
    lemma_kind_words(n.kind);
    lemma_attr_words();
    let e = node_element(n);
    let ss = kind_slots(n.kind);
    assert forall|i: int| 0 <= i < e.attrs.len() implies word(#[trigger] e.attrs[i].0) by {}
    assert forall|i: int| 0 <= i < e.children.len() implies plain(#[trigger] e.children[i]) by {
        let s = ss[i];
        assert(slot_fits(s, n.slots[s.name]));
        let c = slot_element(s.name, n.slots[s.name]);
        assert(e.children[i] == c);
        assert(word(c.tag));
        assert forall|a: int| 0 <= a < c.attrs.len() implies word(#[trigger] c.attrs[a].0) by {}
        match n.slots[s.name] {
            SlotDataModel::Args(p) => {
                assert forall|a: int| 0 <= a < c.children.len() implies plain(#[trigger] c.children[a]) by {
                    let ae = arg_element(p[a]);
                    assert(c.children[a] == ae);
                    assert forall|b: int| 0 <= b < ae.attrs.len() implies word(#[trigger] ae.attrs[b].0) by {}
                    assert(ae.children.len() == 0);
                }
            },
            _ => {},
        }
    }
}

/// The `arg` children of arguments give the arguments back.
proof fn lemma_arg_pairs(p: Seq<(Seq<char>, Seq<char>)>)
    ensures
        arg_pairs(p.map_values(|a: (Seq<char>, Seq<char>)| arg_element(a))) == p,
    decreases p.len(),
{
    lemma_attr_words();
    let cs = p.map_values(|a: (Seq<char>, Seq<char>)| arg_element(a));
    if p.len() == 0 {
        assert(cs.len() == 0);
    } else {
        lemma_arg_pairs(p.drop_last());
        assert(cs.drop_last() =~= p.drop_last().map_values(|a: (Seq<char>, Seq<char>)| arg_element(a)));
        let last = arg_element(p.last());
        assert(cs.last() == last);
        assert(first_attr(last.attrs, "name"@) == Some(p.last().0));
        assert(last.attrs.drop_first() =~= seq![("value"@, p.last().1)]);
        assert(first_attr(last.attrs.drop_first(), "value"@) == Some(p.last().1));
        assert(first_attr(last.attrs, "value"@) == first_attr(last.attrs.drop_first(), "value"@));
        assert(p.drop_last().push(p.last()) =~= p);
    }
}

/// A slot's element gives the slot's value back.
proof fn lemma_slot_back(s: SlotModel, d: SlotDataModel)
    requires
        slot_fits(s, d),
    ensures
        slot_from_element(s, slot_element(s.name, d)) == Ok::<SlotDataModel, Seq<char>>(d),
{
    lemma_attr_words();
    match d {
        SlotDataModel::Cond(f, o, v) => {
            let c = slot_element(s.name, d);
            assert(c.attrs.drop_first() =~= seq![("op"@, o), ("value"@, v)]);
            assert(c.attrs.drop_first().drop_first() =~= seq![("value"@, v)]);
            let a1 = c.attrs.drop_first();
            let a2 = a1.drop_first();
            assert(attr_or_empty(c.attrs, "field"@) == f);
            assert(first_attr(a1, "op"@) == Some(o));
            assert(first_attr(c.attrs, "op"@) == first_attr(a1, "op"@));
            assert(first_attr(a2, "value"@) == Some(v));
            assert(first_attr(a1, "value"@) == first_attr(a2, "value"@));
            assert(first_attr(c.attrs, "value"@) == first_attr(a1, "value"@));
        },
        SlotDataModel::Args(p) => {
            lemma_arg_pairs(p);
        },
        _ => {},
    }
}

/// The first child with a tag that no earlier child carries.
proof fn lemma_first_child_at(cs: Seq<ElementModel>, tag: Seq<char>, j: int)
    requires
        0 <= j < cs.len(),
        cs[j].tag == tag,
        forall|i: int| 0 <= i < j ==> #[trigger] cs[i].tag != tag,
    ensures
        first_child(cs, tag) == Some(cs[j]),
    decreases j,
{
    if j > 0 {
        assert forall|i: int| 0 <= i < j - 1 implies #[trigger] cs.drop_first()[i].tag != tag by {
            assert(cs.drop_first()[i] == cs[i + 1]);
        }
        lemma_first_child_at(cs.drop_first(), tag, j - 1);
    }
}

/// The slots read back from the first `j` slot children.
pub open spec fn slots_upto(n: NodeModel, j: int) -> Map<Seq<char>, SlotDataModel>
    decreases j,
{
    if j <= 0 {
        Map::empty()
    } else {
        let name = kind_slots(n.kind)[j - 1].name;
        slots_upto(n, j - 1).insert(name, n.slots[name])
    }
}

proof fn lemma_slots_back(n: NodeModel, j: int)
    requires
        presentable(n),
        0 <= j <= kind_slots(n.kind).len(),
    ensures
        slots_from_element(node_element(n), n.kind, n.node_id, j) == Ok::<Map<Seq<char>, SlotDataModel>, Seq<char>>(
            slots_upto(n, j),
        ),
        forall|k: Seq<char>| #[trigger] slots_upto(n, j).dom().contains(k) <==> exists|i: int| 0 <= i < j && kind_slots(n.kind)[i].name == k,
        forall|k: Seq<char>| #[trigger] slots_upto(n, j).dom().contains(k) ==> slots_upto(n, j)[k] == n.slots[k],
    decreases j,
{
    if j > 0 {
        lemma_slots_back(n, j - 1);
        lemma_kind_words(n.kind);
        let e = node_element(n);
        let ss = kind_slots(n.kind);
        let s = ss[j - 1];
        assert(e.children[j - 1] == slot_element(s.name, n.slots[s.name]));
        assert forall|i: int| 0 <= i < j - 1 implies #[trigger] e.children[i].tag != s.name by {
            assert(e.children[i].tag == ss[i].name);
        }
        lemma_first_child_at(e.children, s.name, j - 1);
        lemma_slot_back(s, n.slots[s.name]);
        let m = slots_upto(n, j);
        assert forall|k: Seq<char>| #[trigger] m.dom().contains(k) <==> exists|i: int| 0 <= i < j && ss[i].name == k by {
            if m.dom().contains(k) && k != s.name {
                assert(slots_upto(n, j - 1).dom().contains(k));
            }
            if exists|i: int| 0 <= i < j && ss[i].name == k {
                let i = choose|i: int| 0 <= i < j && ss[i].name == k;
                if i < j - 1 {
                    assert(slots_upto(n, j - 1).dom().contains(k));
                }
            }
        }
    }
}

/// The element of a presentable node reads back as the node the registry
/// builds from the same id, kind and slots, in the given branch.
pub proof fn lemma_element_node_back(n: NodeModel, branch_id: Seq<char>)
    requires
        presentable(n),
    ensures
        element_node(node_element(n), branch_id) == Ok::<NodeModel, Seq<char>>(
            NodeModel { branch_id, ..new_node(n.node_id, kind_subtype(n.kind), n.kind, n.slots) },
        ),
{
    lemma_kind_words(n.kind);
    lemma_kind_name_round_trip(n.kind);
    lemma_attr_words();
    let e = node_element(n);
    assert(first_attr(e.attrs, "id"@) == Some(n.node_id));
    let len = kind_slots(n.kind).len() as int;
    lemma_slots_back(n, len);
    assert(slots_upto(n, len) =~= n.slots) by {
        assert forall|k: Seq<char>| #[trigger] slots_upto(n, len).dom().contains(k) <==> n.slots.dom().contains(k) by {}
    }
}

/// Writing a node in the indented presentation and reading it back gives
/// the node the registry builds from the same id, kind and slots, in the
/// node's branch: the slots are kept, and a node the registry built (its
/// registered subtype, its cache key) comes back unchanged.
pub proof fn lemma_node_round_trip(n: NodeModel)
    requires
        presentable(n),
    ensures
        round_trip(n) == Ok::<NodeModel, Seq<char>>(
            NodeModel { branch_id: n.branch_id, ..new_node(n.node_id, kind_subtype(n.kind), n.kind, n.slots) },
        ),
        n.subtype == kind_subtype(n.kind) && n.cache_key == cache_key_of(n.subtype, n.kind, n.slots) ==> round_trip(n)
            == Ok::<NodeModel, Seq<char>>(n),
{
    let e = node_element(n);
    lemma_node_element_plain(n);
    let x = expanded(e, Seq::empty());
    assert(x.subrange(0, x.len() as int) =~= x);
    assert(spaces(Seq::<char>::empty()));
    lemma_read_expanded(e, Seq::empty(), x, 0);
    lemma_element_node_back(n, n.branch_id);
}

// ---------------------------------------------------------------------
// A whole graph
// ---------------------------------------------------------------------

/// A node as the presentation reads it back in `branch_id`: the node the
/// registry builds from its id, kind and slots.
pub open spec fn rebuilt(n: NodeModel, branch_id: Seq<char>) -> NodeModel {
    NodeModel { branch_id, ..new_node(n.node_id, kind_subtype(n.kind), n.kind, n.slots) }
}

/// The nodes of a graph, each as the presentation reads it back.
pub open spec fn rebuilt_nodes(nodes: Map<Seq<char>, NodeModel>, branch_id: Seq<char>) -> Map<Seq<char>, NodeModel> {
    Map::new(|k: Seq<char>| nodes.dom().contains(k), |k: Seq<char>| rebuilt(nodes[k], branch_id))
}

/// Nodes keyed by their ids, each one the presentation keeps whole.
pub open spec fn presentable_nodes(nodes: Map<Seq<char>, NodeModel>) -> bool {
    forall|k: Seq<char>| #[trigger] nodes.dom().contains(k) ==> nodes[k].node_id == k && presentable(nodes[k])
}

/// A node as the registry builds it in `branch_id`.
pub open spec fn registry_built(n: NodeModel, branch_id: Seq<char>) -> bool {
    &&& n.subtype == kind_subtype(n.kind)
    &&& n.cache_key == cache_key_of(n.subtype, n.kind, n.slots)
    &&& n.branch_id == branch_id
}

/// The node elements of ascending ids are read back one by one.
proof fn lemma_nodes_back(
    nodes: Map<Seq<char>, NodeModel>,
    ks: Seq<Seq<char>>,
    cs: Seq<ElementModel>,
    branch_id: Seq<char>,
    n: int,
)
    requires
        presentable_nodes(nodes),
        keys_sorted(ks),
        forall|i: int| 0 <= i < ks.len() ==> nodes.dom().contains(#[trigger] ks[i]),
        cs.len() == ks.len(),
        forall|i: int| 0 <= i < cs.len() ==> #[trigger] cs[i] == node_element(nodes[ks[i]]),
        0 <= n <= ks.len(),
    ensures
        nodes_from_elements(cs, branch_id, n) matches Ok(m) && (forall|k: Seq<char>| #[trigger] m.dom().contains(k)
            <==> ks.take(n).contains(k)) && (forall|k: Seq<char>| #[trigger] m.dom().contains(k) ==> m[k] == rebuilt(
            nodes[k],
            branch_id,
        )),
    decreases n,
{
    if n > 0 {
        lemma_nodes_back(nodes, ks, cs, branch_id, n - 1);
        let k = ks[n - 1];
        assert(nodes.dom().contains(k));
        lemma_element_node_back(nodes[k], branch_id);
        assert(cs[n - 1] == node_element(nodes[k]));
        let m = nodes_from_elements(cs, branch_id, n - 1)->Ok_0;
        assert(!m.dom().contains(k)) by {
            if ks.take(n - 1).contains(k) {
                let i = ks.take(n - 1).index_of(k);
                assert(ks[i] == k);
                assert(seq_lt(ks[i], ks[n - 1]));
                lemma_seq_lt_irreflexive(k);
            }
        }
        let m2 = m.insert(k, rebuilt(nodes[k], branch_id));
        assert(nodes_from_elements(cs, branch_id, n) == Ok::<Map<Seq<char>, NodeModel>, Seq<char>>(m2));
        assert forall|q: Seq<char>| #[trigger] m2.dom().contains(q) <==> ks.take(n).contains(q) by {
            if ks.take(n - 1).contains(q) {
                let i = ks.take(n - 1).index_of(q);
                assert(ks.take(n)[i] == q);
            }
            if ks.take(n).contains(q) {
                let i = ks.take(n).index_of(q);
                if i < n - 1 {
                    assert(ks.take(n - 1)[i] == q);
                }
            }
            if q == k {
                assert(ks.take(n)[n - 1] == k);
            }
        }
    } else {
        assert forall|k: Seq<char>| #[trigger] Map::<Seq<char>, NodeModel>::empty().dom().contains(k) <==> ks.take(
            n,
        ).contains(k) by {
            assert(ks.take(n).len() == 0);
        }
    }
}

proof fn lemma_edge_words()
    ensures
        word("edge"@),
        word("from"@),
        word("to"@),
        word("type"@),
        word("label"@),
        word("nodes"@),
        word("edges"@),
        word("luck"@),
        "from"@ != "to"@ && "from"@ != "type"@ && "to"@ != "type"@,
        "from"@ != "label"@ && "to"@ != "label"@ && "type"@ != "label"@,
        "nodes"@ != "edges"@,
        forall|t: EdgeType| edge_type_from_name(#[trigger] edge_type_name(t)) == Some(t),
{
    reveal_strlit("edge");
    reveal_strlit("from");
    reveal_strlit("to");
    reveal_strlit("type");
    reveal_strlit("label");
    reveal_strlit("nodes");
    reveal_strlit("edges");
    reveal_strlit("luck");
    reveal_strlit("seq");
    reveal_strlit("branch");
    reveal_strlit("merge");
    assert forall|i: int| 0 <= i < "edge"@.len() implies word_char(#[trigger] "edge"@[i]) by {}
    assert forall|i: int| 0 <= i < "from"@.len() implies word_char(#[trigger] "from"@[i]) by {}
    assert forall|i: int| 0 <= i < "to"@.len() implies word_char(#[trigger] "to"@[i]) by {}
    assert forall|i: int| 0 <= i < "type"@.len() implies word_char(#[trigger] "type"@[i]) by {}
    assert forall|i: int| 0 <= i < "label"@.len() implies word_char(#[trigger] "label"@[i]) by {}
    assert forall|i: int| 0 <= i < "nodes"@.len() implies word_char(#[trigger] "nodes"@[i]) by {}
    assert forall|i: int| 0 <= i < "edges"@.len() implies word_char(#[trigger] "edges"@[i]) by {}
    assert forall|i: int| 0 <= i < "luck"@.len() implies word_char(#[trigger] "luck"@[i]) by {}
    assert("from"@[0] != "to"@[0]);
    assert("from"@[0] != "type"@[0]);
    assert("to"@.len() != "type"@.len());
    assert("from"@[0] != "label"@[0]);
    assert("to"@[0] != "label"@[0]);
    assert("type"@[0] != "label"@[0]);
    assert("nodes"@[0] != "edges"@[0]);
    assert("branch"@[0] != "seq"@[0]);
    assert("merge"@[0] != "seq"@[0]);
    assert("merge"@[0] != "branch"@[0]);
}

/// The element of an edge reads back as the edge.
proof fn lemma_edge_back(e: EdgeModel)
    ensures
        (edge_element(e)).tag == "edge"@,
        first_attr(edge_element(e).attrs, "type"@) == Some(edge_type_name(e.edge_type)),
        attr_or_empty(edge_element(e).attrs, "from"@) == e.source,
        attr_or_empty(edge_element(e).attrs, "to"@) == e.target,
        first_attr(edge_element(e).attrs, "label"@) == e.label,
{
    lemma_edge_words();
    let a = edge_element(e).attrs;
    let a1 = a.drop_first();
    let a2 = a1.drop_first();
    let a3 = a2.drop_first();
    assert(a[0] == ("from"@, e.source));
    assert(a1[0] == ("to"@, e.target));
    assert(a2[0] == ("type"@, edge_type_name(e.edge_type)));
    assert(first_attr(a, "to"@) == first_attr(a1, "to"@));
    assert(first_attr(a, "type"@) == first_attr(a1, "type"@));
    assert(first_attr(a1, "type"@) == first_attr(a2, "type"@));
    assert(first_attr(a, "label"@) == first_attr(a1, "label"@));
    assert(first_attr(a1, "label"@) == first_attr(a2, "label"@));
    assert(first_attr(a2, "label"@) == first_attr(a3, "label"@));
    match e.label {
        Some(l) => {
            assert(a3 =~= seq![("label"@, l)]);
        },
        None => {
            assert(a3 =~= Seq::<(Seq<char>, Seq<char>)>::empty());
        },
    }
}

/// The edge elements are read back as the edges, in order.
proof fn lemma_edges_back(es: Seq<EdgeModel>, cs: Seq<ElementModel>, n: int)
    requires
        cs.len() == es.len(),
        forall|i: int| 0 <= i < cs.len() ==> #[trigger] cs[i] == edge_element(es[i]),
        0 <= n <= es.len(),
    ensures
        edges_from_elements(cs, n) == Ok::<Seq<EdgeModel>, Seq<char>>(es.take(n)),
    decreases n,
{
    lemma_edge_words();
    if n == 0 {
        assert(es.take(0) =~= Seq::<EdgeModel>::empty());
    } else {
        lemma_edges_back(es, cs, n - 1);
        let e = es[n - 1];
        lemma_edge_back(e);
        assert(cs[n - 1] == edge_element(e));
        assert(es.take(n) =~= es.take(n - 1).push(e));
    }
}

/// Whether an edge points at a missing node depends on the node ids alone.
proof fn lemma_endpoint_error_ids(a: Map<Seq<char>, NodeModel>, b: Map<Seq<char>, NodeModel>, es: Seq<EdgeModel>)
    requires
        a.dom() == b.dom(),
    ensures
        endpoint_error(a, es) == endpoint_error(b, es),
    decreases es.len(),
{
    if es.len() > 0 {
        lemma_endpoint_error_ids(a, b, es.drop_last());
    }
}

/// The element of a graph whose nodes are presentable is plain.
proof fn lemma_graph_element_plain(g: GraphModel)
    requires
        presentable_nodes(g.nodes),
        g.nodes.dom().finite(),
    ensures
        plain(graph_element(g)),
{
    lemma_edge_words();
    lemma_sorted_elements_exist(g.nodes.dom());
    let e = graph_element(g);
    let ne = e.children[0];
    let ee = e.children[1];
    let ks = sorted_elements(g.nodes.dom());
    assert forall|i: int| 0 <= i < ne.children.len() implies plain(#[trigger] ne.children[i]) by {
        assert(ks.contains(ks[i]));
        lemma_node_element_plain(g.nodes[ks[i]]);
    }
    assert forall|i: int| 0 <= i < ee.children.len() implies plain(#[trigger] ee.children[i]) by {
        let c = ee.children[i];
        assert(c == edge_element(g.edges[i]));
        assert forall|j: int| 0 <= j < c.attrs.len() implies word(#[trigger] c.attrs[j].0) by {}
    }
    assert(plain(ne));
    assert(plain(ee));
    assert forall|i: int| 0 <= i < e.children.len() implies plain(#[trigger] e.children[i]) by {}
}

/// Writing a graph in either layout and reading it back gives the same node
/// ids, each node the one the registry builds from its id, kind and slots
/// (in the reading branch), and the same edges in the same order: the layout
/// makes no difference, and a graph of registry-built nodes in that branch
/// comes back unchanged.
pub proof fn lemma_graph_round_trip(g: GraphModel, style: Style, branch_id: Seq<char>)
    requires
        g.nodes.dom().finite(),
        presentable_nodes(g.nodes),
        endpoint_error(g.nodes, g.edges) is None,
    ensures
        presentation_graph(rendered(graph_element(g), style), branch_id) == Ok::<GraphModel, Seq<char>>(
            GraphModel { nodes: rebuilt_nodes(g.nodes, branch_id), edges: g.edges },
        ),
        presentation_graph(rendered(graph_element(g), Style::Compact), branch_id) == presentation_graph(
            rendered(graph_element(g), Style::Expanded),
            branch_id,
        ),
        (forall|k: Seq<char>| #[trigger] g.nodes.dom().contains(k) ==> registry_built(g.nodes[k], branch_id))
            ==> presentation_graph(rendered(graph_element(g), style), branch_id) == Ok::<GraphModel, Seq<char>>(g),
{
    lemma_edge_words();
    lemma_graph_round_trip_one(g, Style::Compact, branch_id);
    lemma_graph_round_trip_one(g, Style::Expanded, branch_id);
    if forall|k: Seq<char>| #[trigger] g.nodes.dom().contains(k) ==> registry_built(g.nodes[k], branch_id) {
        assert(rebuilt_nodes(g.nodes, branch_id) =~= g.nodes) by {
            assert forall|k: Seq<char>| #[trigger] g.nodes.dom().contains(k) implies rebuilt(g.nodes[k], branch_id)
                == g.nodes[k] by {
                assert(registry_built(g.nodes[k], branch_id));
            }
        }
    }
}

/// The element of a graph stands for the graph with its nodes rebuilt.
proof fn lemma_graph_element_back(g: GraphModel, branch_id: Seq<char>)
    requires
        g.nodes.dom().finite(),
        presentable_nodes(g.nodes),
        endpoint_error(g.nodes, g.edges) is None,
    ensures
        element_graph(graph_element(g), branch_id) == Ok::<GraphModel, Seq<char>>(
            GraphModel { nodes: rebuilt_nodes(g.nodes, branch_id), edges: g.edges },
        ),
{
    lemma_edge_words();
    lemma_sorted_elements_exist(g.nodes.dom());
    let e = graph_element(g);
    let ne = e.children[0];
    let ee = e.children[1];
    assert(first_child(e.children, "nodes"@) == Some(ne));
    lemma_first_child_at(e.children, "edges"@, 1);
    let ks = sorted_elements(g.nodes.dom());
    assert forall|i: int| 0 <= i < ks.len() implies g.nodes.dom().contains(#[trigger] ks[i]) by {
        assert(ks.contains(ks[i]));
    }
    lemma_nodes_back(g.nodes, ks, ne.children, branch_id, ks.len() as int);
    let m = nodes_from_elements(ne.children, branch_id, ne.children.len() as int)->Ok_0;
    assert(ks.take(ks.len() as int) =~= ks);
    let r = rebuilt_nodes(g.nodes, branch_id);
    assert(m.dom() =~= g.nodes.dom());
    assert(m =~= r);
    lemma_edges_back(g.edges, ee.children, g.edges.len() as int);
    assert(g.edges.take(g.edges.len() as int) =~= g.edges);
    lemma_endpoint_error_ids(m, g.nodes, g.edges);
}

proof fn lemma_graph_round_trip_one(g: GraphModel, style: Style, branch_id: Seq<char>)
    requires
        g.nodes.dom().finite(),
        presentable_nodes(g.nodes),
        endpoint_error(g.nodes, g.edges) is None,
    ensures
        presentation_graph(rendered(graph_element(g), style), branch_id) == Ok::<GraphModel, Seq<char>>(
            GraphModel { nodes: rebuilt_nodes(g.nodes, branch_id), edges: g.edges },
        ),
{
    lemma_graph_element_plain(g);
    let e = graph_element(g);
    let x = rendered(e, style);
    assert(x.subrange(0, x.len() as int) =~= x);
    match style {
        Style::Compact => {
            lemma_read_compact(e, x, 0);
        },
        Style::Expanded => {
            assert(spaces(Seq::<char>::empty()));
            lemma_read_expanded(e, Seq::empty(), x, 0);
        },
    }
    lemma_graph_element_back(g, branch_id);
}

/// A slot value as the parser reads it has the slot's type.
proof fn lemma_slot_value_fits(ts: Seq<TokenModel>, p: int, slot: SlotModel)
    requires
        slot_value_spec(ts, p, slot) is Ok,
    ensures
        slot_fits(slot, slot_value_spec(ts, p, slot)->Ok_0.0),
{
}

/// The slots the parser reads from slot `j` on keep every slot read so far
/// and add the rest, each of its slot's type.
proof fn lemma_body_presentable(ts: Seq<TokenModel>, p: int, kind: Kind, j: int, acc: Map<Seq<char>, SlotDataModel>)
    requires
        0 <= j <= kind_slots(kind).len(),
        forall|k: Seq<char>|
            #[trigger] acc.dom().contains(k) <==> exists|i: int| 0 <= i < j && kind_slots(kind)[i].name == k,
        forall|i: int| 0 <= i < j ==> slot_fits(kind_slots(kind)[i], acc[#[trigger] kind_slots(kind)[i].name]),
        body_spec(ts, p, kind, j, acc) is Ok,
    ensures
        ({
            let m = body_spec(ts, p, kind, j, acc)->Ok_0.0;
            &&& forall|k: Seq<char>|
                #[trigger] m.dom().contains(k) <==> exists|i: int|
                    0 <= i < kind_slots(kind).len() && kind_slots(kind)[i].name == k
            &&& forall|i: int|
                0 <= i < kind_slots(kind).len() ==> slot_fits(kind_slots(kind)[i], m[#[trigger] kind_slots(kind)[i].name])
        }),
    decreases kind_slots(kind).len() - j,
{
    let ks = kind_slots(kind);
    lemma_kind_words(kind);
    if j < ks.len() {
        let slot = ks[j];
        let v = slot_value_spec(ts, crate::parser::adv(ts, p), slot)->Ok_0;
        lemma_slot_value_fits(ts, crate::parser::adv(ts, p), slot);
        let acc2 = acc.insert(slot.name, v.0);
        assert forall|k: Seq<char>| #[trigger] acc2.dom().contains(k) <==> exists|i: int|
            0 <= i < j + 1 && ks[i].name == k by {
            if k == slot.name {
                assert(ks[j].name == k);
            }
            if exists|i: int| 0 <= i < j + 1 && ks[i].name == k {
                let i = choose|i: int| 0 <= i < j + 1 && ks[i].name == k;
                if i < j {
                    assert(acc.dom().contains(k));
                }
            }
        }
        assert forall|i: int| 0 <= i < j + 1 implies slot_fits(ks[i], acc2[#[trigger] ks[i].name]) by {
            if i < j {
                assert(ks[i].name != ks[j].name);
            }
        }
        lemma_body_presentable(ts, v.1, kind, j + 1, acc2);
    }
}

/// A node declaration as the parser reads it is one the presentation keeps
/// whole, built by the registry in the branch `root`.
proof fn lemma_decl_presentable(ts: Seq<TokenModel>, p: int)
    requires
        node_decl_spec(ts, p) is Ok,
    ensures
        presentable(node_decl_spec(ts, p)->Ok_0.0),
        registry_built(node_decl_spec(ts, p)->Ok_0.0, "root"@),
{
    reveal(node_decl_spec);
    let a = expect_spec(ts, p, TokenType::Node)->Ok_0;
    let id = expect_spec(ts, a.1, TokenType::Identifier)->Ok_0;
    let b = expect_spec(ts, id.1, TokenType::Colon)->Ok_0;
    let k = expect_spec(ts, b.1, TokenType::Kind)->Ok_0;
    let kind = kind_from_name(k.0.value)->Some_0;
    let c = expect_spec(ts, k.1, TokenType::LBracket)->Ok_0;
    let d = expect_spec(ts, adv(ts, c.1), TokenType::RBracket)->Ok_0;
    let empty = Map::<Seq<char>, SlotDataModel>::empty();
    lemma_body_presentable(ts, d.1, kind, 0, empty);
    let body = body_spec(ts, d.1, kind, 0, empty)->Ok_0;
    let n = node_decl_spec(ts, p)->Ok_0.0;
    assert(n.kind == kind && n.slots == body.0);
}

/// The nodes the parser reads, added to nodes kept whole, are kept whole.
proof fn lemma_nodes_presentable(ts: Seq<TokenModel>, p: int, acc: Map<Seq<char>, NodeModel>)
    requires
        acc.dom().finite(),
        presentable_nodes(acc),
        forall|k: Seq<char>| #[trigger] acc.dom().contains(k) ==> registry_built(acc[k], "root"@),
        nodes_spec(ts, p, acc) is Ok,
    ensures
        nodes_spec(ts, p, acc)->Ok_0.0.dom().finite(),
        presentable_nodes(nodes_spec(ts, p, acc)->Ok_0.0),
        forall|k: Seq<char>|
            #[trigger] nodes_spec(ts, p, acc)->Ok_0.0.dom().contains(k) ==> registry_built(
                nodes_spec(ts, p, acc)->Ok_0.0[k],
                "root"@,
            ),
    decreases ts.len() - p,
{
    if 0 <= p < ts.len() && ts[p].ttype == TokenType::Node {
        let n = node_decl_spec(ts, p)->Ok_0;
        lemma_decl_presentable(ts, p);
        crate::parser::lemma_node_decl_advances(ts, p);
        let acc2 = acc.insert(n.0.node_id, n.0);
        if !acc.dom().contains(n.0.node_id) && n.1 <= ts.len() {
            lemma_nodes_presentable(ts, n.1, acc2);
        }
    }
}

/// A parsed graph's nodes, each in branch `branch_id`.
pub open spec fn in_branch(nodes: Map<Seq<char>, NodeModel>, branch_id: Seq<char>) -> Map<Seq<char>, NodeModel> {
    Map::new(|k: Seq<char>| nodes.dom().contains(k), |k: Seq<char>| NodeModel { branch_id, ..nodes[k] })
}

/// Every graph the parser reads is written and read back, in either layout
/// and into any branch, as the same graph with its nodes in that branch
/// (unchanged when read into `root`, where the parser puts them); and each
/// of its nodes round-trips unchanged.
pub proof fn lemma_parsed_graph_round_trip(src: Seq<char>, style: Style, branch_id: Seq<char>)
    requires
        parse_spec(src) is Ok,
    ensures
        presentation_graph(rendered(graph_element(parse_spec(src)->Ok_0), style), branch_id) == Ok::<GraphModel, Seq<char>>(
            GraphModel { nodes: in_branch(parse_spec(src)->Ok_0.nodes, branch_id), edges: parse_spec(src)->Ok_0.edges },
        ),
        presentation_graph(rendered(graph_element(parse_spec(src)->Ok_0), style), "root"@) == Ok::<GraphModel, Seq<char>>(
            parse_spec(src)->Ok_0,
        ),
        forall|k: Seq<char>|
            #[trigger] parse_spec(src)->Ok_0.nodes.dom().contains(k) ==> round_trip(parse_spec(src)->Ok_0.nodes[k])
                == Ok::<NodeModel, Seq<char>>(parse_spec(src)->Ok_0.nodes[k]),
{
    let ts = crate::lexer::lex_spec(src)->Ok_0;
    let g = parse_spec(src)->Ok_0;
    let empty = Map::<Seq<char>, NodeModel>::empty();
    assert(empty.dom() =~= Set::<Seq<char>>::empty());
    lemma_nodes_presentable(ts, 0, empty);
    assert(g.nodes == nodes_spec(ts, 0, empty)->Ok_0.0);
    lemma_graph_round_trip(g, style, branch_id);
    lemma_graph_round_trip(g, style, "root"@);
    assert(rebuilt_nodes(g.nodes, branch_id) =~= in_branch(g.nodes, branch_id)) by {
        assert forall|k: Seq<char>| #[trigger] g.nodes.dom().contains(k) implies rebuilt(g.nodes[k], branch_id)
            == NodeModel { branch_id, ..g.nodes[k] } by {
            assert(registry_built(g.nodes[k], "root"@));
        }
    }
    assert forall|k: Seq<char>| #[trigger] g.nodes.dom().contains(k) implies round_trip(g.nodes[k]) == Ok::<
        NodeModel,
        Seq<char>,
    >(g.nodes[k]) by {
        lemma_node_round_trip(g.nodes[k]);
    }
}

} // verus!
