//! The surface syntax of a node read back: the text `node_surface_form`
//! writes splits into tokens one by one, and parsing those tokens gives the
//! node again, with its cache key.

use vstd::prelude::*;
use crate::lexer::{
    digit_class, ident_char, ident_class, is_digit, is_layout, lex_from, lex_spec, not_quote, one_char_op,
    scan_spec, skip_trivia, span_end, string_class, tok, two_char_op, word_type, TokenModel, TokenType,
};
use crate::decoding::{
    arg_texts, example_source, header_line, placeholder, surface_form, surface_line, surface_lines, surface_value_of,
};
use crate::parser::{
    arg_list_spec, arg_spec, body_spec, cmp_op, condition_spec, expect_spec, fragment_parse_spec, fragment_spec,
    more_args, new_node, node_decl_spec, slot_value_spec, value_spec, NodeModel, ParseErrorModel, SlotDataModel,
};
use crate::registry::{
    kind_from_name, kind_name, kind_slots, kind_subtype, lemma_kind_name_round_trip, lemma_subtype_name_round_trip, quote,
    all_kinds, is_slot_word, kinds_have_word, reject_reasons, slot_has_word, slots_have_word, subtype_from_name,
    subtype_name, Kind, SlotModel, SlotValueModel, Subtype,
};
use crate::text::{alpha_char, join};

verus! {

/// A token as a text writes it: the layout before it, its characters, and
/// the type and value the lexer reads from them.
pub struct Piece {
    pub ws: Seq<char>,
    pub text: Seq<char>,
    pub ttype: TokenType,
    pub value: Seq<char>,
}

/// The text of the pieces, one after the other.
pub open spec fn pieces_text(ps: Seq<Piece>) -> Seq<char>
    decreases ps.len(),
{
    if ps.len() == 0 {
        Seq::empty()
    } else {
        pieces_text(ps.drop_last()) + ps.last().ws + ps.last().text
    }
}

/// The type and value of each piece.
pub open spec fn piece_tokens(ps: Seq<Piece>) -> Seq<(TokenType, Seq<char>)> {
    ps.map_values(|p: Piece| (p.ttype, p.value))
}

/// The type and value of each token.
pub open spec fn token_pairs(ts: Seq<TokenModel>) -> Seq<(TokenType, Seq<char>)> {
    ts.map_values(|t: TokenModel| (t.ttype, t.value))
}

pub open spec fn layout_run(ws: Seq<char>) -> bool {
    forall|i: int| 0 <= i < ws.len() ==> is_layout(#[trigger] ws[i])
}

/// A word the lexer reads whole: a letter or `_`, then letters, digits or `_`.
pub open spec fn is_word(w: Seq<char>) -> bool {
    &&& w.len() > 0
    &&& alpha_char(w[0]) || w[0] == '_'
    &&& forall|i: int| 0 <= i < w.len() ==> ident_char(#[trigger] w[i])
}

pub open spec fn is_digits(d: Seq<char>) -> bool {
    d.len() > 0 && forall|i: int| 0 <= i < d.len() ==> is_digit(#[trigger] d[i])
}

/// The piece is read as its own token when the character after it is
/// `next` (`'\0'` at the end of the text).
pub open spec fn scans(p: Piece, next: char) -> bool {
    ||| is_word(p.text) && p.ttype == word_type(p.text) && p.value == p.text && !ident_char(next)
    ||| p.text == quote(p.value) && !p.value.contains('"') && p.ttype == TokenType::String
    ||| is_digits(p.text) && p.ttype == TokenType::Number && p.value == p.text && !is_digit(next)
    ||| p.text.len() == 1 && one_char_op(p.text[0]) == Some(p.ttype) && p.value == p.text && two_char_op(
        p.text[0],
        next,
    ) is None
    ||| p.text.len() == 2 && two_char_op(p.text[0], p.text[1]) == Some(p.ttype) && p.value == p.text
}

/// The first character of a piece.
pub open spec fn first_char(p: Piece) -> char {
    if p.ws.len() > 0 {
        p.ws[0]
    } else {
        p.text[0]
    }
}

/// The character after piece `k`: the first of the next piece, or `nc`
/// after the last.
pub open spec fn next_after(ps: Seq<Piece>, k: int, nc: char) -> char {
    if k + 1 < ps.len() {
        first_char(ps[k + 1])
    } else {
        nc
    }
}

/// The character after piece `k` in a whole text: `'\0'` after the last.
pub open spec fn next_of(ps: Seq<Piece>, k: int) -> char {
    next_after(ps, k, '\0')
}

/// A piece with layout before it, then characters that start no trivia.
pub open spec fn piece_shape(p: Piece) -> bool {
    &&& layout_run(p.ws)
    &&& p.text.len() > 0
    &&& !is_layout(p.text[0])
    &&& p.text[0] != '#'
}

/// Pieces the lexer reads one token each when the character `nc` follows
/// the last of them.
pub open spec fn pieces_fit(ps: Seq<Piece>, nc: char) -> bool {
    forall|k: int| 0 <= k < ps.len() ==> piece_shape(#[trigger] ps[k]) && scans(ps[k], next_after(ps, k, nc))
}

/// Pieces that make up a whole text the lexer reads one token each.
pub open spec fn pieces_ok(ps: Seq<Piece>) -> bool {
    pieces_fit(ps, '\0')
}

/// Pieces that fit before a group of pieces, and the group, fit together.
pub proof fn lemma_fit_concat(a: Seq<Piece>, b: Seq<Piece>, nc: char)
    requires
        b.len() > 0,
        pieces_fit(a, first_char(b[0])),
        pieces_fit(b, nc),
    ensures
        pieces_fit(a + b, nc),
{
    let ab = a + b;
    assert forall|k: int| 0 <= k < ab.len() implies piece_shape(#[trigger] ab[k]) && scans(ab[k], next_after(ab, k, nc)) by {
        if k < a.len() {
            assert(ab[k] == a[k]);
            assert(piece_shape(a[k]) && scans(a[k], next_after(a, k, first_char(b[0]))));
            if k + 1 < a.len() {
                assert(ab[k + 1] == a[k + 1]);
            } else {
                assert(ab[k + 1] == b[0]);
            }
        } else {
            assert(ab[k] == b[k - a.len()]);
            assert(piece_shape(b[k - a.len()]) && scans(b[k - a.len()], next_after(b, k - a.len(), nc)));
            if k + 1 < ab.len() {
                assert(ab[k + 1] == b[k + 1 - a.len()]);
            }
        }
    }
}

pub proof fn lemma_pieces_text_concat(a: Seq<Piece>, b: Seq<Piece>)
    ensures
        pieces_text(a + b) == pieces_text(a) + pieces_text(b),
    decreases b.len(),
{
    if b.len() == 0 {
        assert(a + b =~= a);
        assert(pieces_text(b) =~= Seq::<char>::empty());
        assert(pieces_text(a) + pieces_text(b) =~= pieces_text(a));
    } else {
        lemma_pieces_text_concat(a, b.drop_last());
        assert((a + b).drop_last() =~= a + b.drop_last());
        assert((a + b).last() == b.last());
        assert(pieces_text(a + b) =~= pieces_text(a) + pieces_text(b));
    }
}

/// A span of characters `keep` accepts ends at the first one it does not.
pub proof fn lemma_span_run(s: Seq<char>, i: int, j: int, keep: spec_fn(char) -> bool)
    requires
        0 <= i <= j <= s.len(),
        forall|k: int| i <= k < j ==> keep(#[trigger] s[k]),
        j == s.len() || !keep(s[j]),
    ensures
        span_end(s, i, keep) == j,
    decreases j - i,
{
    if i < j {
        lemma_span_run(s, i + 1, j, keep);
    }
}

/// Layout is skipped up to the first character that is neither layout nor
/// the start of a comment.
pub proof fn lemma_trivia_run(s: Seq<char>, p: int, q: int)
    requires
        0 <= p <= q <= s.len(),
        forall|k: int| p <= k < q ==> is_layout(#[trigger] s[k]),
        q == s.len() || (!is_layout(s[q]) && s[q] != '#'),
    ensures
        skip_trivia(s, p, false) == q,
    decreases q - p,
{
    if p < q {
        lemma_trivia_run(s, p + 1, q);
    }
}

/// A piece written at `q` is scanned as its token, up to its last character.
pub proof fn lemma_scan_piece(s: Seq<char>, q: int, pc: Piece, next: char)
    requires
        0 <= q,
        q + pc.text.len() <= s.len(),
        s.subrange(q, q + pc.text.len()) == pc.text,
        pc.text.len() > 0,
        next == (if q + pc.text.len() < s.len() {
            s[q + pc.text.len()]
        } else {
            '\0'
        }),
        scans(pc, next),
    ensures
        scan_spec(s, q) == Ok::<(TokenModel, int), crate::lexer::LexErrorModel>(
            (tok(s, q, pc.ttype, pc.value), q + pc.text.len()),
        ),
{
    let t = pc.text;
    let e = q + t.len();
    assert(s[q] == t[0]);
    assert forall|k: int| q <= k < e implies #[trigger] s[k] == t[k - q] by {
        assert(s.subrange(q, e)[k - q] == s[k]);
    }
    assert(('"' as u32) == 34 && ('_' as u32) == 95);
    if is_word(t) && pc.ttype == word_type(t) && pc.value == t && !ident_char(next) {
        assert(s[q] != '"');
        assert(!is_digit(s[q]));
        assert forall|k: int| q + 1 <= k < e implies (ident_class())(#[trigger] s[k]) by {
            assert(ident_char(t[k - q]));
        }
        if e < s.len() {
            assert(!(ident_class())(s[e]));
        }
        lemma_span_run(s, q + 1, e, ident_class());
        assert(s.subrange(q, e) == t);
    } else if t == quote(pc.value) && !pc.value.contains('"') && pc.ttype == TokenType::String {
        let v = pc.value;
        assert(t[0] == '"');
        assert forall|k: int| q + 1 <= k < e - 1 implies (string_class())(#[trigger] s[k]) by {
            assert(t[k - q] == v[k - q - 1]);
            if v[k - q - 1] == '"' {
                assert(v.contains('"'));
            }
        }
        assert(t[t.len() - 1] == '"');
        assert(s[e - 1] == '"');
        lemma_span_run(s, q + 1, e - 1, string_class());
        assert(s.subrange(q + 1, e - 1) =~= v);
    } else if is_digits(t) && pc.ttype == TokenType::Number && pc.value == t && !is_digit(next) {
        assert(is_digit(s[q]));
        assert forall|k: int| q <= k < e implies (digit_class())(#[trigger] s[k]) by {
            assert(is_digit(t[k - q]));
        }
        lemma_span_run(s, q, e, digit_class());
        assert(s.subrange(q, e) == t);
    } else if t.len() == 1 && one_char_op(t[0]) == Some(pc.ttype) && pc.value == t && two_char_op(t[0], next) is None {
        let c = t[0];
        assert(c != '"' && !is_digit(c) && !alpha_char(c) && c != '_');
        assert(crate::lexer::next_char(s, q) == next);
        assert(seq![c] =~= t);
    } else {
        let c = t[0];
        assert(two_char_op(t[0], t[1]) is Some);
        assert(c != '"' && !is_digit(c) && !alpha_char(c) && c != '_');
        assert(crate::lexer::next_char(s, q) == t[1]);
        assert(seq![c, t[1]] =~= t);
    }
}

pub proof fn lemma_pieces_text_cons(p: Piece, rest: Seq<Piece>)
    ensures
        pieces_text(seq![p] + rest) == p.ws + p.text + pieces_text(rest),
{
    lemma_pieces_text_concat(seq![p], rest);
    assert(seq![p].drop_last() =~= Seq::<Piece>::empty());
    assert(seq![p].last() == p);
    assert(pieces_text(Seq::<Piece>::empty()) =~= Seq::<char>::empty());
    assert(pieces_text(seq![p]) == pieces_text(Seq::<Piece>::empty()) + p.ws + p.text);
    assert(pieces_text(seq![p]) =~= p.ws + p.text);
}

/// Where piece `i` starts in the text of the pieces.
pub open spec fn piece_start(ps: Seq<Piece>, i: int) -> int {
    pieces_text(ps.take(i)).len() as int
}

/// The positions of four texts written one after the other.
proof fn lemma_split4(s: Seq<char>, a: Seq<char>, w: Seq<char>, t: Seq<char>, b: Seq<char>)
    requires
        s == a + w + t + b,
    ensures
        s.len() == a.len() + w.len() + t.len() + b.len(),
        forall|k: int| a.len() <= k < a.len() + w.len() ==> #[trigger] s[k] == w[k - a.len()],
        s.subrange(a.len() + w.len() as int, a.len() + w.len() + t.len() as int) == t,
        b.len() > 0 ==> s[a.len() + w.len() + t.len() as int] == b[0],
{
    assert forall|k: int| a.len() <= k < a.len() + w.len() implies #[trigger] s[k] == w[k - a.len()] by {
        assert((a + w)[k] == w[k - a.len()]);
        assert((a + w + t)[k] == (a + w)[k]);
    }
    assert(s.subrange(a.len() + w.len() as int, a.len() + w.len() + t.len() as int) =~= t);
}

/// The text of the pieces around piece `i`.
proof fn lemma_piece_split(ps: Seq<Piece>, i: int)
    requires
        0 <= i < ps.len(),
    ensures
        pieces_text(ps) == pieces_text(ps.take(i)) + ps[i].ws + ps[i].text + pieces_text(ps.skip(i + 1)),
        piece_start(ps, i + 1) == piece_start(ps, i) + ps[i].ws.len() + ps[i].text.len(),
{
    let pc = ps[i];
    let rest = ps.skip(i + 1);
    lemma_pieces_text_concat(ps.take(i), ps.skip(i));
    assert(ps.take(i) + ps.skip(i) =~= ps);
    assert(ps.skip(i) =~= seq![pc] + rest);
    lemma_pieces_text_cons(pc, rest);
    lemma_pieces_text_concat(ps.take(i), seq![pc]);
    lemma_pieces_text_cons(pc, Seq::<Piece>::empty());
    assert(seq![pc] + Seq::<Piece>::empty() =~= seq![pc]);
    assert(pieces_text(Seq::<Piece>::empty()) =~= Seq::<char>::empty());
    assert(ps.take(i + 1) =~= ps.take(i) + seq![pc]);
}

/// Where piece `i` lies in the text of the pieces, and what follows it.
proof fn lemma_piece_at(ps: Seq<Piece>, i: int)
    requires
        0 <= i < ps.len(),
        forall|k: int| 0 <= k < ps.len() ==> (#[trigger] ps[k]).text.len() > 0,
    ensures
        ({
            let s = pieces_text(ps);
            let st = piece_start(ps, i);
            let q = st + ps[i].ws.len();
            let e = q + ps[i].text.len();
            &&& 0 <= st
            &&& piece_start(ps, i + 1) == e
            &&& e <= s.len()
            &&& forall|k: int| st <= k < q ==> #[trigger] s[k] == ps[i].ws[k - st]
            &&& s.subrange(q, e) == ps[i].text
            &&& (e < s.len() <==> i + 1 < ps.len())
            &&& i + 1 < ps.len() ==> s[e] == first_char(ps[i + 1])
        }),
{
    let s = pieces_text(ps);
    let pc = ps[i];
    let a = pieces_text(ps.take(i));
    let b = pieces_text(ps.skip(i + 1));
    lemma_piece_split(ps, i);
    lemma_split4(s, a, pc.ws, pc.text, b);
    if i + 1 < ps.len() {
        let pn = ps[i + 1];
        assert(ps.skip(i + 1) =~= seq![pn] + ps.skip(i + 2));
        lemma_pieces_text_cons(pn, ps.skip(i + 2));
        assert(pn.text.len() > 0);
        assert(b[0] == first_char(pn));
    } else {
        assert(ps.skip(i + 1) =~= Seq::<Piece>::empty());
        assert(b =~= Seq::<char>::empty());
    }
}

/// Lexed from the start of piece `i`, the text of the pieces gives the
/// tokens of the pieces from `i` on, then the end of the text.
pub proof fn lemma_lex_pieces(ps: Seq<Piece>, i: int)
    requires
        pieces_ok(ps),
        0 <= i <= ps.len(),
    ensures
        lex_from(pieces_text(ps), piece_start(ps, i)) matches Ok(ts) && token_pairs(ts) == piece_tokens(ps).skip(i).push(
            (TokenType::Eof, Seq::<char>::empty()),
        ),
    decreases ps.len() - i,
{
    let s = pieces_text(ps);
    let st = piece_start(ps, i);
    if i == ps.len() {
        assert(ps.take(i) =~= ps);
        assert(st == s.len());
        let ts = seq![tok(s, st, TokenType::Eof, Seq::empty())];
        assert(lex_from(s, st) == Ok::<Seq<TokenModel>, crate::lexer::LexErrorModel>(ts));
        assert(token_pairs(ts) =~= piece_tokens(ps).skip(i).push((TokenType::Eof, Seq::<char>::empty())));
    } else {
        let pc = ps[i];
        assert forall|k: int| 0 <= k < ps.len() implies (#[trigger] ps[k]).text.len() > 0 by {
            assert(piece_shape(ps[k]));
        }
        lemma_piece_at(ps, i);
        let q = st + pc.ws.len();
        let e = q + pc.text.len();
        assert(piece_shape(pc) && scans(pc, next_of(ps, i)));
        assert forall|k: int| st <= k < q implies is_layout(#[trigger] s[k]) by {
            assert(s[k] == pc.ws[k - st]);
        }
        assert(s[q] == s.subrange(q, e)[0]);
        lemma_trivia_run(s, st, q);
        lemma_scan_piece(s, q, pc, next_of(ps, i));
        lemma_lex_pieces(ps, i + 1);
        let r = lex_from(s, e)->Ok_0;
        let t0 = tok(s, q, pc.ttype, pc.value);
        assert(lex_from(s, st) == Ok::<Seq<TokenModel>, crate::lexer::LexErrorModel>(seq![t0] + r));
        assert(token_pairs(seq![t0] + r) =~= seq![(t0.ttype, t0.value)] + token_pairs(r));
        assert(piece_tokens(ps).skip(i) =~= seq![(pc.ttype, pc.value)] + piece_tokens(ps).skip(i + 1));
    }
}

/// The text of well-formed pieces lexes into their tokens, then the end.
pub proof fn lemma_lex_text(ps: Seq<Piece>)
    requires
        pieces_ok(ps),
    ensures
        lex_spec(pieces_text(ps)) matches Ok(ts) && token_pairs(ts) == piece_tokens(ps).push(
            (TokenType::Eof, Seq::<char>::empty()),
        ),
{
    lemma_lex_pieces(ps, 0);
    assert(ps.take(0) =~= Seq::<Piece>::empty());
    assert(piece_tokens(ps).skip(0) =~= piece_tokens(ps));
}

// ---------------------------------------------------------------------
// The pieces of a node's surface text
// ---------------------------------------------------------------------

/// A word, read as the token type the lexer gives it.
pub open spec fn word_piece(ws: Seq<char>, w: Seq<char>) -> Piece {
    Piece { ws, text: w, ttype: word_type(w), value: w }
}

/// Punctuation or an operator, read as itself.
pub open spec fn sym_piece(ws: Seq<char>, text: Seq<char>, ttype: TokenType) -> Piece {
    Piece { ws, text, ttype, value: text }
}

/// The token type of a comparison operator.
pub open spec fn op_type(o: Seq<char>) -> Option<TokenType> {
    if o == "="@ {
        Some(TokenType::Eq)
    } else if o == "!="@ {
        Some(TokenType::Neq)
    } else if o == ">"@ {
        Some(TokenType::Gt)
    } else if o == "<"@ {
        Some(TokenType::Lt)
    } else if o == ">="@ {
        Some(TokenType::Gte)
    } else if o == "<="@ {
        Some(TokenType::Lte)
    } else {
        None
    }
}

/// An identifier the lexer reads as one: a word that is no keyword.
pub open spec fn plain_word(w: Seq<char>) -> bool {
    is_word(w) && word_type(w) == TokenType::Identifier
}

/// A value as the parser gives it back: a string with its quotes (and no
/// quote inside), a number, or `@` and an identifier.
pub open spec fn value_form(v: Seq<char>) -> bool {
    ||| v.len() >= 2 && v == quote(v.subrange(1, v.len() - 1)) && !v.subrange(1, v.len() - 1).contains('"')
    ||| is_digits(v)
    ||| v.len() > 1 && v[0] == '@' && plain_word(v.drop_first())
}

/// The pieces of a value.
pub open spec fn value_pieces(ws: Seq<char>, v: Seq<char>) -> Seq<Piece> {
    if v.len() > 0 && v[0] == '"' {
        seq![Piece { ws, text: v, ttype: TokenType::String, value: v.subrange(1, v.len() - 1) }]
    } else if v.len() > 0 && v[0] == '@' {
        seq![sym_piece(ws, "@"@, TokenType::At), word_piece(Seq::empty(), v.drop_first())]
    } else {
        seq![sym_piece(ws, v, TokenType::Number)]
    }
}

/// The pieces of the first `n` arguments, `name=value` separated by `, `.
pub open spec fn args_pieces(p: Seq<(Seq<char>, Seq<char>)>, n: int) -> Seq<Piece>
    decreases n,
{
    if n <= 0 {
        Seq::empty()
    } else {
        args_pieces(p, n - 1) + arg_group(p, n - 1)
    }
}

/// The pieces of argument `k`, after a comma unless it is the first.
pub open spec fn arg_group(p: Seq<(Seq<char>, Seq<char>)>, k: int) -> Seq<Piece> {
    (if k > 0 {
        seq![sym_piece(Seq::empty(), ","@, TokenType::Comma)]
    } else {
        Seq::empty()
    }) + seq![word_piece(" "@, p[k].0), sym_piece(Seq::empty(), "="@, TokenType::Eq)] + value_pieces(Seq::empty(), p[k].1)
}

/// The pieces of a slot value, after a space.
pub open spec fn value_text_pieces(d: SlotDataModel) -> Seq<Piece> {
    match d {
        SlotDataModel::Str(v) => seq![Piece { ws: " "@, text: quote(v), ttype: TokenType::String, value: v }],
        SlotDataModel::Ident(v) => seq![word_piece(" "@, v)],
        SlotDataModel::Cond(f, o, v) => seq![
            word_piece(" "@, f),
            Piece { ws: " "@, text: o, ttype: op_type(o).unwrap(), value: o },
        ] + value_pieces(" "@, v),
        SlotDataModel::Args(p) => args_pieces(p, p.len() as int),
    }
}

/// The pieces of a slot line, after a line break.
pub open spec fn line_pieces(keyword: Seq<char>, d: SlotDataModel) -> Seq<Piece> {
    seq![word_piece("\n  "@, keyword)] + value_text_pieces(d)
}

/// The pieces of the first `n` slot lines of a node.
pub open spec fn slots_pieces(kind: Kind, slots: Map<Seq<char>, SlotDataModel>, n: int) -> Seq<Piece>
    decreases n,
{
    if n <= 0 {
        Seq::empty()
    } else {
        slots_pieces(kind, slots, n - 1) + line_pieces(kind_slots(kind)[n - 1].keyword, slots[kind_slots(kind)[n - 1].name])
    }
}

/// The pieces of the header line `NODE id: KIND [SUBTYPE]`.
pub open spec fn header_pieces(node_id: Seq<char>, kind: Kind, subtype: Subtype) -> Seq<Piece> {
    seq![
        word_piece(Seq::empty(), "NODE"@),
        word_piece(" "@, node_id),
        sym_piece(Seq::empty(), ":"@, TokenType::Colon),
        word_piece(" "@, kind_name(kind)),
        sym_piece(" "@, "["@, TokenType::LBracket),
        word_piece(Seq::empty(), subtype_name(subtype)),
        sym_piece(Seq::empty(), "]"@, TokenType::RBracket),
    ]
}

/// The pieces of a node's surface text.
pub open spec fn node_pieces(kind: Kind, subtype: Subtype, node_id: Seq<char>, slots: Map<Seq<char>, SlotDataModel>) -> Seq<
    Piece,
> {
    header_pieces(node_id, kind, subtype) + slots_pieces(kind, slots, kind_slots(kind).len() as int) + seq![
        word_piece("\n"@, "END"@),
    ]
}

/// A slot value the surface syntax writes so that it is read back: a
/// string without quotes, a plain identifier, an option of the slot, a
/// condition on an identifier with a comparison and a value, or a non-empty
/// list of arguments named by identifiers.
pub open spec fn surface_fits(s: SlotModel, d: SlotDataModel) -> bool {
    match s.value {
        SlotValueModel::Str => d matches SlotDataModel::Str(v) && !v.contains('"'),
        SlotValueModel::Ident => d matches SlotDataModel::Ident(v) && plain_word(v),
        SlotValueModel::Enum(opts) => d matches SlotDataModel::Ident(v) && opts.contains(v),
        SlotValueModel::Cond => match d {
            SlotDataModel::Cond(f, o, v) => plain_word(f) && op_type(o) is Some && value_form(v),
            _ => false,
        },
        SlotValueModel::Args => match d {
            SlotDataModel::Args(p) => p.len() > 0 && forall|i: int|
                0 <= i < p.len() ==> plain_word((#[trigger] p[i]).0) && value_form(p[i].1),
            _ => false,
        },
    }
}

proof fn lemma_value_text(ws: Seq<char>, v: Seq<char>)
    requires
        value_form(v),
    ensures
        pieces_text(value_pieces(ws, v)) == ws + v,
{
    reveal_strlit("@");
    let vp = value_pieces(ws, v);
    if v.len() > 0 && v[0] == '@' {
        lemma_pieces_text_cons(vp[0], seq![vp[1]]);
        lemma_pieces_text_cons(vp[1], Seq::<Piece>::empty());
        assert(vp =~= seq![vp[0]] + seq![vp[1]]);
        assert(seq![vp[1]] =~= seq![vp[1]] + Seq::<Piece>::empty());
        assert(pieces_text(Seq::<Piece>::empty()) =~= Seq::<char>::empty());
        assert(ws + v =~= ws + "@"@ + Seq::<char>::empty() + v.drop_first() + Seq::<char>::empty());
    } else {
        lemma_pieces_text_cons(vp[0], Seq::<Piece>::empty());
        assert(vp =~= seq![vp[0]] + Seq::<Piece>::empty());
        assert(pieces_text(Seq::<Piece>::empty()) =~= Seq::<char>::empty());
    }
}

/// The text of argument `k`: `, name=value`, or ` name=value` for the first.
proof fn lemma_group_text(p: Seq<(Seq<char>, Seq<char>)>, k: int)
    requires
        0 <= k < p.len(),
        value_form(p[k].1),
    ensures
        pieces_text(arg_group(p, k)) == (if k > 0 {
            ", "@
        } else {
            " "@
        }) + (p[k].0 + "="@ + p[k].1),
{
    reveal_strlit(",");
    reveal_strlit(", ");
    reveal_strlit(" ");
    let g = arg_group(p, k);
    let name = p[k].0;
    let v = p[k].1;
    let mid = seq![word_piece(" "@, name), sym_piece(Seq::empty(), "="@, TokenType::Eq)];
    let vp = value_pieces(Seq::empty(), v);
    lemma_value_text(Seq::empty(), v);
    lemma_pieces_text_cons(mid[0], seq![mid[1]]);
    lemma_pieces_text_cons(mid[1], Seq::<Piece>::empty());
    assert(mid =~= seq![mid[0]] + seq![mid[1]]);
    assert(seq![mid[1]] =~= seq![mid[1]] + Seq::<Piece>::empty());
    assert(pieces_text(Seq::<Piece>::empty()) =~= Seq::<char>::empty());
    lemma_pieces_text_concat(mid, vp);
    assert(pieces_text(mid + vp) =~= " "@ + (name + "="@ + v));
    if k == 0 {
        assert(g =~= mid + vp);
    } else {
        let comma = seq![sym_piece(Seq::empty(), ","@, TokenType::Comma)];
        lemma_pieces_text_cons(comma[0], Seq::<Piece>::empty());
        assert(comma =~= seq![comma[0]] + Seq::<Piece>::empty());
        assert(g =~= comma + (mid + vp));
        lemma_pieces_text_concat(comma, mid + vp);
        assert(pieces_text(g) =~= ", "@ + (name + "="@ + v));
    }
}

proof fn lemma_args_text(p: Seq<(Seq<char>, Seq<char>)>, n: int)
    requires
        1 <= n <= p.len(),
        forall|i: int| 0 <= i < p.len() ==> value_form((#[trigger] p[i]).1),
    ensures
        pieces_text(args_pieces(p, n)) == " "@ + join(arg_texts(p.take(n)), ", "@),
    decreases n,
{
    let g = arg_group(p, n - 1);
    lemma_group_text(p, n - 1);
    let at = arg_texts(p.take(n));
    assert(at[n - 1] == p[n - 1].0 + "="@ + p[n - 1].1);
    lemma_pieces_text_concat(args_pieces(p, n - 1), g);
    if n == 1 {
        assert(args_pieces(p, 0) =~= Seq::<Piece>::empty());
        assert(pieces_text(Seq::<Piece>::empty()) =~= Seq::<char>::empty());
        assert(join(at, ", "@) == at[0]);
        assert(pieces_text(args_pieces(p, n)) =~= " "@ + join(at, ", "@));
    } else {
        lemma_args_text(p, n - 1);
        assert(at.drop_last() =~= arg_texts(p.take(n - 1)));
        assert(join(at, ", "@) == join(at.drop_last(), ", "@) + ", "@ + at.last());
        assert(pieces_text(args_pieces(p, n)) =~= " "@ + join(at, ", "@));
    }
}

proof fn lemma_slot_value_text(s: SlotModel, d: SlotDataModel)
    requires
        surface_fits(s, d),
    ensures
        pieces_text(value_text_pieces(d)) == " "@ + surface_value_of(d),
{
    let vtp = value_text_pieces(d);
    assert(pieces_text(Seq::<Piece>::empty()) =~= Seq::<char>::empty());
    match d {
        SlotDataModel::Str(v) => {
            lemma_pieces_text_cons(vtp[0], Seq::<Piece>::empty());
            assert(vtp =~= seq![vtp[0]] + Seq::<Piece>::empty());
        },
        SlotDataModel::Ident(v) => {
            lemma_pieces_text_cons(vtp[0], Seq::<Piece>::empty());
            assert(vtp =~= seq![vtp[0]] + Seq::<Piece>::empty());
        },
        SlotDataModel::Cond(f, o, v) => {
            let two = seq![vtp[0], vtp[1]];
            let vp = value_pieces(" "@, v);
            assert(vtp =~= two + vp);
            lemma_value_text(" "@, v);
            lemma_pieces_text_cons(vtp[0], seq![vtp[1]]);
            lemma_pieces_text_cons(vtp[1], Seq::<Piece>::empty());
            assert(two =~= seq![vtp[0]] + seq![vtp[1]]);
            assert(seq![vtp[1]] =~= seq![vtp[1]] + Seq::<Piece>::empty());
            lemma_pieces_text_concat(two, vp);
            assert(pieces_text(vtp) =~= " "@ + (f + " "@ + o + " "@ + v));
        },
        SlotDataModel::Args(p) => {
            lemma_args_text(p, p.len() as int);
            assert(p.take(p.len() as int) =~= p);
        },
    }
}

proof fn lemma_line_text(s: SlotModel, d: SlotDataModel)
    requires
        surface_fits(s, d),
    ensures
        pieces_text(line_pieces(s.keyword, d)) == "\n"@ + surface_line(s.keyword, d),
{
    reveal_strlit("\n  ");
    reveal_strlit("\n");
    reveal_strlit("  ");
    reveal_strlit(" ");
    let lp = line_pieces(s.keyword, d);
    lemma_slot_value_text(s, d);
    lemma_pieces_text_cons(lp[0], value_text_pieces(d));
    assert(lp =~= seq![lp[0]] + value_text_pieces(d));
    assert(pieces_text(lp) =~= "\n"@ + ("  "@ + s.keyword + " "@ + surface_value_of(d)));
}

proof fn lemma_text_pair(a: Piece, b: Piece)
    ensures
        pieces_text(seq![a, b]) == a.ws + a.text + b.ws + b.text,
{
    lemma_pieces_text_cons(a, seq![b]);
    lemma_pieces_text_cons(b, Seq::<Piece>::empty());
    assert(seq![a, b] =~= seq![a] + seq![b]);
    assert(seq![b] =~= seq![b] + Seq::<Piece>::empty());
    assert(pieces_text(Seq::<Piece>::empty()) =~= Seq::<char>::empty());
}

#[verifier::spinoff_prover]
proof fn lemma_header_text(node_id: Seq<char>, kind: Kind, subtype: Subtype)
    ensures
        pieces_text(header_pieces(node_id, kind, subtype)) == header_line(node_id, kind, subtype),
{
    reveal_strlit("NODE ");
    reveal_strlit("NODE");
    reveal_strlit(": ");
    reveal_strlit(":");
    reveal_strlit(" [");
    reveal_strlit("[");
    reveal_strlit("]");
    reveal_strlit(" ");
    let h = header_pieces(node_id, kind, subtype);
    let a = seq![h[0], h[1]];
    let b = seq![h[2], h[3]];
    let c = seq![h[4], h[5]];
    let d = seq![h[6]];
    lemma_text_pair(h[0], h[1]);
    lemma_text_pair(h[2], h[3]);
    lemma_text_pair(h[4], h[5]);
    lemma_pieces_text_cons(h[6], Seq::<Piece>::empty());
    assert(d =~= seq![h[6]] + Seq::<Piece>::empty());
    assert(pieces_text(Seq::<Piece>::empty()) =~= Seq::<char>::empty());
    assert(h =~= a + b + c + d);
    lemma_pieces_text_concat(a, b);
    lemma_pieces_text_concat(a + b, c);
    lemma_pieces_text_concat(a + b + c, d);
    assert(pieces_text(h) =~= header_line(node_id, kind, subtype));
}

/// Every registry slot of the kind holds a value that fits.
pub open spec fn slots_fit(kind: Kind, slots: Map<Seq<char>, SlotDataModel>) -> bool {
    forall|j: int|
        0 <= j < kind_slots(kind).len() ==> surface_fits(
            #[trigger] kind_slots(kind)[j],
            slots[kind_slots(kind)[j].name],
        )
}

proof fn lemma_lines_text(kind: Kind, subtype: Subtype, node_id: Seq<char>, slots: Map<Seq<char>, SlotDataModel>, m: int)
    requires
        slots_fit(kind, slots),
        0 <= m <= kind_slots(kind).len(),
    ensures
        pieces_text(header_pieces(node_id, kind, subtype) + slots_pieces(kind, slots, m)) == join(
            surface_lines(kind, subtype, node_id, slots).take(m + 1),
            "\n"@,
        ),
    decreases m,
{
    let lines = surface_lines(kind, subtype, node_id, slots);
    let h = header_pieces(node_id, kind, subtype);
    if m == 0 {
        lemma_header_text(node_id, kind, subtype);
        assert(slots_pieces(kind, slots, 0) =~= Seq::<Piece>::empty());
        assert(h + Seq::<Piece>::empty() =~= h);
        assert(lines[0] == header_line(node_id, kind, subtype));
        assert(lines.take(1).len() == 1);
        assert(join(lines.take(1), "\n"@) == lines.take(1)[0]);
    } else {
        lemma_lines_text(kind, subtype, node_id, slots, m - 1);
        let sm = kind_slots(kind)[m - 1];
        let lp = line_pieces(sm.keyword, slots[sm.name]);
        assert(surface_fits(sm, slots[sm.name]));
        lemma_line_text(sm, slots[sm.name]);
        assert(h + slots_pieces(kind, slots, m) =~= (h + slots_pieces(kind, slots, m - 1)) + lp);
        lemma_pieces_text_concat(h + slots_pieces(kind, slots, m - 1), lp);
        assert(lines[m] == surface_line(sm.keyword, slots[sm.name]));
        assert(lines.take(m + 1).drop_last() =~= lines.take(m));
        assert(join(lines.take(m + 1), "\n"@) == join(lines.take(m), "\n"@) + "\n"@ + lines[m]);
        assert(pieces_text(h + slots_pieces(kind, slots, m)) =~= join(lines.take(m + 1), "\n"@));
    }
}

/// The pieces of a node make up its surface text.
pub proof fn lemma_node_text(kind: Kind, subtype: Subtype, node_id: Seq<char>, slots: Map<Seq<char>, SlotDataModel>)
    requires
        slots_fit(kind, slots),
    ensures
        pieces_text(node_pieces(kind, subtype, node_id, slots)) == surface_form(kind, subtype, node_id, slots),
{
    reveal_strlit("\n");
    reveal_strlit("END");
    let n = kind_slots(kind).len() as int;
    let lines = surface_lines(kind, subtype, node_id, slots);
    let a = header_pieces(node_id, kind, subtype) + slots_pieces(kind, slots, n);
    let endp = seq![word_piece("\n"@, "END"@)];
    lemma_lines_text(kind, subtype, node_id, slots, n);
    lemma_pieces_text_concat(a, endp);
    lemma_pieces_text_cons(endp[0], Seq::<Piece>::empty());
    assert(endp =~= seq![endp[0]] + Seq::<Piece>::empty());
    assert(pieces_text(Seq::<Piece>::empty()) =~= Seq::<char>::empty());
    assert(lines.len() == n + 2);
    assert(lines.drop_last() =~= lines.take(n + 1));
    assert(lines.last() == "END"@);
    assert(join(lines, "\n"@) == join(lines.drop_last(), "\n"@) + "\n"@ + lines.last());
    assert(pieces_text(a + endp) =~= join(lines, "\n"@));
}

/// A word of upper-case ASCII letters and `_`, starting with a letter.
proof fn lemma_upper_word(w: Seq<char>)
    requires
        w.len() > 0,
        'A' <= w[0] <= 'Z',
        forall|i: int| 0 <= i < w.len() ==> ('A' <= #[trigger] w[i] <= 'Z') || w[i] == '_',
    ensures
        is_word(w),
{
    assert(('A' as u32) == 65 && ('Z' as u32) == 90 && ('_' as u32) == 95);
    assert forall|i: int| 0 <= i < w.len() implies ident_char(#[trigger] w[i]) by {
        if w[i] != '_' {
            assert((w[i] as u32) < 128);
        }
    }
    assert((w[0] as u32) < 128);
}

/// The words of the surface syntax: `NODE`, `END`, the kind and subtype
/// names, the slot keywords and the options of the enumerated slots.
proof fn lemma_keywords(kind: Kind, subtype: Subtype)
    ensures
        is_word("NODE"@),
        is_word("END"@),
        is_word(kind_name(kind)),
        is_word(subtype_name(subtype)),
        forall|j: int| 0 <= j < kind_slots(kind).len() ==> is_word(#[trigger] kind_slots(kind)[j].keyword),
        forall|j: int| 0 <= j < reject_reasons().len() ==> is_word(#[trigger] reject_reasons()[j]),
{
    reveal_strlit("NODE");
    reveal_strlit("END");
    reveal_strlit("ROLE");
    reveal_strlit("TASK");
    reveal_strlit("FILTER");
    reveal_strlit("STEP");
    reveal_strlit("CLASSIFY");
    reveal_strlit("SPAWN");
    reveal_strlit("TOOL");
    reveal_strlit("DOCUMENT");
    reveal_strlit("REJECT_MARK");
    reveal_strlit("GENERATIVE");
    reveal_strlit("EXTERNAL");
    reveal_strlit("REJECT");
    reveal_strlit("AS");
    reveal_strlit("GIVEN");
    reveal_strlit("PRODUCE");
    reveal_strlit("WHERE");
    reveal_strlit("INTO");
    reveal_strlit("DO");
    reveal_strlit("INPUT");
    reveal_strlit("LABELS");
    reveal_strlit("PLAN");
    reveal_strlit("CALL");
    reveal_strlit("WITH");
    reveal_strlit("FROM");
    reveal_strlit("CAUSE");
    reveal_strlit("REASON");
    reveal_strlit("SYNTAX");
    reveal_strlit("TYPE");
    reveal_strlit("BUDGET");
    lemma_upper_word("NODE"@);
    lemma_upper_word("END"@);
    let kn = kind_name(kind);
    assert forall|i: int| 0 <= i < kn.len() implies ('A' <= #[trigger] kn[i] <= 'Z') || kn[i] == '_' by {}
    lemma_upper_word(kn);
    let sn = subtype_name(subtype);
    assert forall|i: int| 0 <= i < sn.len() implies ('A' <= #[trigger] sn[i] <= 'Z') || sn[i] == '_' by {}
    lemma_upper_word(sn);
    let ss = kind_slots(kind);
    assert forall|j: int| 0 <= j < ss.len() implies is_word(#[trigger] ss[j].keyword) by {
        let w = ss[j].keyword;
        assert forall|i: int| 0 <= i < w.len() implies ('A' <= #[trigger] w[i] <= 'Z') || w[i] == '_' by {}
        lemma_upper_word(w);
    }
    let rr = reject_reasons();
    assert forall|j: int| 0 <= j < rr.len() implies is_word(#[trigger] rr[j]) by {
        let w = rr[j];
        assert forall|i: int| 0 <= i < w.len() implies ('A' <= #[trigger] w[i] <= 'Z') || w[i] == '_' by {}
        lemma_upper_word(w);
    }
}

/// A word starts with a character that is neither layout nor `#`.
proof fn lemma_word_start(w: Seq<char>)
    requires
        is_word(w),
    ensures
        !is_layout(w[0]),
        w[0] != '#',
        w[0] != '"' && w[0] != '@',
{
    assert((' ' as u32) == 32 && ('\t' as u32) == 9 && ('\r' as u32) == 13 && ('\n' as u32) == 10);
    assert(('#' as u32) == 35 && ('"' as u32) == 34 && ('@' as u32) == 64 && ('_' as u32) == 95);
}

/// The characters that end a word, a number and a value.
proof fn lemma_enders()
    ensures
        !ident_char(' ') && !ident_char('\n') && !ident_char(',') && !ident_char('=') && !ident_char(':')
            && !ident_char(']') && !ident_char('\0'),
        forall|c: char| is_digit(c) ==> ident_char(c),
{
    assert((' ' as u32) == 32 && (',' as u32) == 44 && ('=' as u32) == 61 && (':' as u32) == 58);
    assert((']' as u32) == 93 && ('\n' as u32) == 10 && ('\0' as u32) == 0);
    assert forall|c: char| is_digit(c) implies ident_char(c) by {
        assert(('0' as u32) == 48 && ('9' as u32) == 57);
    }
}

proof fn lemma_value_fit(ws: Seq<char>, v: Seq<char>, nc: char)
    requires
        layout_run(ws),
        value_form(v),
        !ident_char(nc),
    ensures
        pieces_fit(value_pieces(ws, v), nc),
        value_pieces(ws, v).len() > 0,
        first_char(value_pieces(ws, v)[0]) == (if ws.len() > 0 {
            ws[0]
        } else {
            v[0]
        }),
{
    reveal_strlit("@");
    lemma_enders();
    let vp = value_pieces(ws, v);
    assert(('"' as u32) == 34 && ('@' as u32) == 64 && ('#' as u32) == 35 && ('0' as u32) == 48 && ('9' as u32) == 57);
    assert((' ' as u32) == 32 && ('\t' as u32) == 9 && ('\r' as u32) == 13 && ('\n' as u32) == 10);
    if v.len() >= 2 && v == quote(v.subrange(1, v.len() - 1)) && !v.subrange(1, v.len() - 1).contains('"') {
        assert(v[0] == '"');
        assert(piece_shape(vp[0]));
        assert(scans(vp[0], next_after(vp, 0, nc)));
    } else if is_digits(v) {
        assert(is_digit(v[0]));
        assert(v[0] != '"' && v[0] != '@');
        assert(piece_shape(vp[0]));
        assert(!is_digit(nc));
        assert(scans(vp[0], next_after(vp, 0, nc)));
    } else {
        let name = v.drop_first();
        assert(v[0] == '@');
        lemma_word_start(name);
        assert(name[0] == v[1]);
        assert(piece_shape(vp[0]));
        assert(first_char(vp[1]) == name[0]);
        assert(two_char_op('@', name[0]) is None);
        assert(scans(vp[0], next_after(vp, 0, nc)));
        assert(piece_shape(vp[1]));
        assert(scans(vp[1], next_after(vp, 1, nc)));
    }
}

proof fn lemma_group_fit(p: Seq<(Seq<char>, Seq<char>)>, k: int, nc: char)
    requires
        0 <= k < p.len(),
        plain_word(p[k].0),
        value_form(p[k].1),
        !ident_char(nc),
    ensures
        pieces_fit(arg_group(p, k), nc),
        arg_group(p, k).len() > 0,
        first_char(arg_group(p, k)[0]) == (if k > 0 {
            ','
        } else {
            ' '
        }),
{
    reveal_strlit(",");
    reveal_strlit("=");
    reveal_strlit(" ");
    lemma_enders();
    let name = p[k].0;
    let v = p[k].1;
    let vp = value_pieces(Seq::empty(), v);
    lemma_value_fit(Seq::empty(), v, nc);
    lemma_word_start(name);
    let eqp = seq![sym_piece(Seq::empty(), "="@, TokenType::Eq)];
    assert(('"' as u32) == 34 && ('@' as u32) == 64 && ('>' as u32) == 62);
    assert(v[0] == '"' || v[0] == '@' || is_digit(v[0])) by {
        if is_digits(v) {
            assert(is_digit(v[0]));
        }
    }
    assert(two_char_op('=', v[0]) is None) by {
        assert(('0' as u32) == 48 && ('9' as u32) == 57);
    }
    assert(pieces_fit(eqp, first_char(vp[0]))) by {
        assert(piece_shape(eqp[0]));
        assert(scans(eqp[0], next_after(eqp, 0, first_char(vp[0]))));
    }
    lemma_fit_concat(eqp, vp, nc);
    let wp = seq![word_piece(" "@, name)];
    assert(pieces_fit(wp, '=')) by {
        assert(layout_run(" "@));
        assert(piece_shape(wp[0]));
        assert(scans(wp[0], next_after(wp, 0, '=')));
    }
    assert((eqp + vp)[0] == eqp[0]);
    lemma_fit_concat(wp, eqp + vp, nc);
    let body = wp + (eqp + vp);
    assert(seq![word_piece(" "@, name), sym_piece(Seq::empty(), "="@, TokenType::Eq)] + vp =~= body);
    if k > 0 {
        let cp = seq![sym_piece(Seq::empty(), ","@, TokenType::Comma)];
        assert(pieces_fit(cp, ' ')) by {
            assert(piece_shape(cp[0]));
            assert(scans(cp[0], next_after(cp, 0, ' ')));
        }
        assert(body[0] == wp[0]);
        lemma_fit_concat(cp, body, nc);
        assert(arg_group(p, k) =~= cp + body);
    } else {
        assert(arg_group(p, k) =~= body);
    }
}

proof fn lemma_args_fit(p: Seq<(Seq<char>, Seq<char>)>, n: int, nc: char)
    requires
        1 <= n <= p.len(),
        forall|i: int| 0 <= i < p.len() ==> plain_word((#[trigger] p[i]).0) && value_form(p[i].1),
        !ident_char(nc),
    ensures
        pieces_fit(args_pieces(p, n), nc),
        args_pieces(p, n).len() > 0,
        first_char(args_pieces(p, n)[0]) == ' ',
    decreases n,
{
    lemma_enders();
    assert(plain_word(p[n - 1].0) && value_form(p[n - 1].1));
    lemma_group_fit(p, n - 1, nc);
    let g = arg_group(p, n - 1);
    if n == 1 {
        assert(args_pieces(p, 0) =~= Seq::<Piece>::empty());
        assert(args_pieces(p, 1) =~= g);
    } else {
        lemma_args_fit(p, n - 1, ',');
        lemma_fit_concat(args_pieces(p, n - 1), g, nc);
        assert(args_pieces(p, n)[0] == args_pieces(p, n - 1)[0]);
    }
}

proof fn lemma_slot_value_fit(s: SlotModel, d: SlotDataModel, nc: char)
    requires
        surface_fits(s, d),
        !ident_char(nc),
        s.value is Enum ==> s.value->Enum_0 == reject_reasons(),
    ensures
        pieces_fit(value_text_pieces(d), nc),
        value_text_pieces(d).len() > 0,
        first_char(value_text_pieces(d)[0]) == ' ',
{
    reveal_strlit(" ");
    lemma_enders();
    let vtp = value_text_pieces(d);
    assert(layout_run(" "@));
    assert(('"' as u32) == 34 && ('#' as u32) == 35);
    match d {
        SlotDataModel::Str(v) => {
            assert(piece_shape(vtp[0]));
            assert(scans(vtp[0], next_after(vtp, 0, nc)));
        },
        SlotDataModel::Ident(v) => {
            match s.value {
                SlotValueModel::Enum(opts) => {
                    lemma_keywords(Kind::RejectMark, Subtype::Reject);
                    let j = opts.index_of(v);
                    assert(is_word(reject_reasons()[j]));
                },
                _ => {},
            }
            assert(is_word(v));
            lemma_word_start(v);
            assert(piece_shape(vtp[0]));
            assert(scans(vtp[0], next_after(vtp, 0, nc)));
        },
        SlotDataModel::Cond(f, o, v) => {
            reveal_strlit("=");
            reveal_strlit("!=");
            reveal_strlit(">");
            reveal_strlit("<");
            reveal_strlit(">=");
            reveal_strlit("<=");
            let two = seq![vtp[0], vtp[1]];
            let vp = value_pieces(" "@, v);
            assert(vtp =~= two + vp);
            lemma_value_fit(" "@, v, nc);
            lemma_word_start(f);
            assert(('=' as u32) == 61 && ('!' as u32) == 33 && ('>' as u32) == 62 && ('<' as u32) == 60);
            assert(two_char_op('=', ' ') is None && two_char_op('>', ' ') is None && two_char_op('<', ' ') is None);
            assert(pieces_fit(two, ' ')) by {
                assert(piece_shape(two[0]));
                assert(scans(two[0], next_after(two, 0, ' ')));
                assert(piece_shape(two[1]));
                assert(scans(two[1], next_after(two, 1, ' ')));
            }
            lemma_fit_concat(two, vp, nc);
        },
        SlotDataModel::Args(p) => {
            lemma_args_fit(p, p.len() as int, nc);
        },
    }
}

proof fn lemma_line_fit(kind: Kind, j: int, d: SlotDataModel, nc: char)
    requires
        0 <= j < kind_slots(kind).len(),
        surface_fits(kind_slots(kind)[j], d),
        !ident_char(nc),
    ensures
        pieces_fit(line_pieces(kind_slots(kind)[j].keyword, d), nc),
        first_char(line_pieces(kind_slots(kind)[j].keyword, d)[0]) == '\n',
{
    reveal_strlit("\n  ");
    lemma_enders();
    let sm = kind_slots(kind)[j];
    assert(sm.value is Enum ==> sm.value->Enum_0 == reject_reasons());
    lemma_slot_value_fit(sm, d, nc);
    lemma_keywords(kind, crate::registry::kind_subtype(kind));
    assert(is_word(sm.keyword));
    lemma_word_start(sm.keyword);
    let kp = seq![word_piece("\n  "@, sm.keyword)];
    assert(('\n' as u32) == 10 && (' ' as u32) == 32);
    assert(pieces_fit(kp, ' ')) by {
        assert(layout_run("\n  "@));
        assert(piece_shape(kp[0]));
        assert(scans(kp[0], next_after(kp, 0, ' ')));
    }
    lemma_fit_concat(kp, value_text_pieces(d), nc);
}

proof fn lemma_slots_fit(kind: Kind, slots: Map<Seq<char>, SlotDataModel>, m: int)
    requires
        slots_fit(kind, slots),
        1 <= m <= kind_slots(kind).len(),
    ensures
        pieces_fit(slots_pieces(kind, slots, m), '\n'),
        slots_pieces(kind, slots, m).len() > 0,
        first_char(slots_pieces(kind, slots, m)[0]) == '\n',
    decreases m,
{
    lemma_enders();
    let sm = kind_slots(kind)[m - 1];
    assert(surface_fits(sm, slots[sm.name]));
    lemma_line_fit(kind, m - 1, slots[sm.name], '\n');
    let lp = line_pieces(sm.keyword, slots[sm.name]);
    if m == 1 {
        assert(slots_pieces(kind, slots, 0) =~= Seq::<Piece>::empty());
        assert(slots_pieces(kind, slots, 1) =~= lp);
    } else {
        lemma_slots_fit(kind, slots, m - 1);
        lemma_fit_concat(slots_pieces(kind, slots, m - 1), lp, '\n');
        assert(slots_pieces(kind, slots, m)[0] == slots_pieces(kind, slots, m - 1)[0]);
    }
}

proof fn lemma_header_fit(node_id: Seq<char>, kind: Kind, subtype: Subtype)
    requires
        plain_word(node_id),
    ensures
        pieces_fit(header_pieces(node_id, kind, subtype), '\n'),
{
    reveal_strlit(":");
    reveal_strlit("[");
    reveal_strlit("]");
    reveal_strlit(" ");
    lemma_enders();
    lemma_keywords(kind, subtype);
    lemma_word_start("NODE"@);
    lemma_word_start(node_id);
    lemma_word_start(kind_name(kind));
    lemma_word_start(subtype_name(subtype));
    let h = header_pieces(node_id, kind, subtype);
    assert(layout_run(" "@));
    assert((':' as u32) == 58 && ('[' as u32) == 91 && (']' as u32) == 93 && ('#' as u32) == 35);
    assert(two_char_op('[', subtype_name(subtype)[0]) is None);
    assert forall|k: int| 0 <= k < h.len() implies piece_shape(#[trigger] h[k]) && scans(h[k], next_after(h, k, '\n')) by {
        assert(piece_shape(h[k]));
    }
}

/// The pieces of a node lex one token each.
pub proof fn lemma_node_pieces_ok(kind: Kind, subtype: Subtype, node_id: Seq<char>, slots: Map<Seq<char>, SlotDataModel>)
    requires
        plain_word(node_id),
        slots_fit(kind, slots),
    ensures
        pieces_ok(node_pieces(kind, subtype, node_id, slots)),
{
    reveal_strlit("\n");
    lemma_enders();
    lemma_keywords(kind, subtype);
    lemma_word_start("END"@);
    let n = kind_slots(kind).len() as int;
    assert(n >= 1);
    let h = header_pieces(node_id, kind, subtype);
    let sp = slots_pieces(kind, slots, n);
    lemma_header_fit(node_id, kind, subtype);
    lemma_slots_fit(kind, slots, n);
    lemma_fit_concat(h, sp, '\n');
    let endp = seq![word_piece("\n"@, "END"@)];
    assert(pieces_fit(endp, '\0')) by {
        assert(layout_run("\n"@));
        assert(piece_shape(endp[0]));
        assert(scans(endp[0], next_after(endp, 0, '\0')));
    }
    lemma_fit_concat(h + sp, endp, '\0');
}

// ---------------------------------------------------------------------
// Parsing the tokens back
// ---------------------------------------------------------------------

/// The tokens from `off` on carry the types and values of the pieces.
pub open spec fn agree(ts: Seq<TokenModel>, ps: Seq<Piece>, off: int) -> bool {
    &&& 0 <= off
    &&& off + ps.len() <= ts.len()
    &&& forall|k: int|
        0 <= k < ps.len() ==> (#[trigger] ts[off + k]).ttype == ps[k].ttype && ts[off + k].value == ps[k].value
}

proof fn lemma_agree_split(ts: Seq<TokenModel>, a: Seq<Piece>, b: Seq<Piece>, off: int)
    requires
        agree(ts, a + b, off),
    ensures
        agree(ts, a, off),
        agree(ts, b, off + a.len()),
{
    assert forall|k: int| 0 <= k < a.len() implies (#[trigger] ts[off + k]).ttype == a[k].ttype && ts[off + k].value
        == a[k].value by {
        assert((a + b)[k] == a[k]);
    }
    assert forall|k: int| 0 <= k < b.len() implies (#[trigger] ts[off + a.len() + k]).ttype == b[k].ttype
        && ts[off + a.len() + k].value == b[k].value by {
        assert((a + b)[a.len() + k] == b[k]);
        assert(ts[off + (a.len() + k)] == ts[off + a.len() + k]);
    }
}

proof fn lemma_word_type_not_eof(w: Seq<char>)
    ensures
        word_type(w) != TokenType::Eof,
        word_type(w) != TokenType::Comma,
{
}

proof fn lemma_value_parse(ts: Seq<TokenModel>, ws: Seq<char>, v: Seq<char>, off: int)
    requires
        value_form(v),
        agree(ts, value_pieces(ws, v), off),
    ensures
        value_spec(ts, off) == Ok::<(Seq<char>, int), ParseErrorModel>((v, off + value_pieces(ws, v).len())),
{
    reveal_strlit("@");
    let vp = value_pieces(ws, v);
    assert(ts[off + 0] == ts[off]);
    if v.len() > 0 && v[0] == '"' {
        assert(v.len() >= 2 && v == quote(v.subrange(1, v.len() - 1))) by {
            if is_digits(v) {
                assert(('0' as u32) == 48 && ('"' as u32) == 34);
            }
        }
    } else if v.len() > 0 && v[0] == '@' {
        let name = v.drop_first();
        assert(plain_word(name)) by {
            if is_digits(v) {
                assert(('0' as u32) == 48 && ('@' as u32) == 64);
            }
        }
        lemma_word_type_not_eof(name);
        assert(ts[off + 1].ttype == TokenType::Identifier);
        assert(seq!['@'] + name =~= v);
    } else {
        assert(is_digits(v));
    }
}

proof fn lemma_arg_parse(ts: Seq<TokenModel>, p: Seq<(Seq<char>, Seq<char>)>, k: int, off: int)
    requires
        0 <= k < p.len(),
        plain_word(p[k].0),
        value_form(p[k].1),
        agree(ts, seq![word_piece(" "@, p[k].0), sym_piece(Seq::empty(), "="@, TokenType::Eq)] + value_pieces(Seq::empty(), p[k].1), off),
    ensures
        arg_spec(ts, off) == Ok::<((Seq<char>, Seq<char>), int), ParseErrorModel>(
            (p[k], off + 2 + value_pieces(Seq::empty(), p[k].1).len()),
        ),
{
    let head = seq![word_piece(" "@, p[k].0), sym_piece(Seq::empty(), "="@, TokenType::Eq)];
    let vp = value_pieces(Seq::empty(), p[k].1);
    lemma_agree_split(ts, head, vp, off);
    assert(ts[off + 0] == ts[off]);
    assert(ts[off].ttype == TokenType::Identifier);
    assert(ts[off + 1].ttype == TokenType::Eq);
    lemma_value_parse(ts, Seq::empty(), p[k].1, off + 2);
}

proof fn lemma_args_prefix(p: Seq<(Seq<char>, Seq<char>)>, k: int, n: int)
    requires
        0 <= k < n,
    ensures
        args_pieces(p, n) == args_pieces(p, k) + arg_group(p, k) + args_pieces(p, n).skip(
            args_pieces(p, k + 1).len() as int,
        ),
        args_pieces(p, k + 1) == args_pieces(p, k) + arg_group(p, k),
        args_pieces(p, k + 1).len() <= args_pieces(p, n).len(),
    decreases n,
{
    if n > k + 1 {
        lemma_args_prefix(p, k, n - 1);
        let a = args_pieces(p, n - 1);
        let l = args_pieces(p, k + 1).len() as int;
        assert(args_pieces(p, n) == a + arg_group(p, n - 1));
        assert(args_pieces(p, n).skip(l) =~= a.skip(l) + arg_group(p, n - 1));
        assert(args_pieces(p, n) =~= args_pieces(p, k) + arg_group(p, k) + args_pieces(p, n).skip(l));
    } else {
        assert(args_pieces(p, n).skip(args_pieces(p, k + 1).len() as int) =~= Seq::<Piece>::empty());
        assert(args_pieces(p, n) =~= args_pieces(p, k) + arg_group(p, k) + Seq::<Piece>::empty());
    }
}

/// The arguments from `k` on are read back, after the first `k`.
proof fn lemma_more_args_parse(ts: Seq<TokenModel>, p: Seq<(Seq<char>, Seq<char>)>, k: int, off: int)
    requires
        1 <= k <= p.len(),
        forall|i: int| 0 <= i < p.len() ==> plain_word((#[trigger] p[i]).0) && value_form(p[i].1),
        agree(ts, args_pieces(p, p.len() as int), off),
        off + args_pieces(p, p.len() as int).len() < ts.len(),
        ts[off + args_pieces(p, p.len() as int).len()].ttype != TokenType::Comma,
    ensures
        more_args(ts, off + args_pieces(p, k).len(), p.take(k)) == Ok::<(Seq<(Seq<char>, Seq<char>)>, int), ParseErrorModel>(
            (p, off + args_pieces(p, p.len() as int).len()),
        ),
    decreases p.len() - k,
{
    let n = p.len() as int;
    let pos = off + args_pieces(p, k).len();
    if k == n {
        assert(p.take(n) =~= p);
    } else {
        lemma_args_prefix(p, k, n);
        let g = arg_group(p, k);
        let rest = args_pieces(p, n).skip(args_pieces(p, k + 1).len() as int);
        lemma_agree_split(ts, args_pieces(p, k) + g, rest, off);
        lemma_agree_split(ts, args_pieces(p, k), g, off);
        let comma = seq![sym_piece(Seq::empty(), ","@, TokenType::Comma)];
        let body = seq![word_piece(" "@, p[k].0), sym_piece(Seq::empty(), "="@, TokenType::Eq)] + value_pieces(
            Seq::empty(),
            p[k].1,
        );
        assert(g =~= comma + body);
        lemma_agree_split(ts, comma, body, pos);
        assert(ts[pos + 0] == ts[pos]);
        assert(ts[pos].ttype == TokenType::Comma);
        lemma_arg_parse(ts, p, k, pos + 1);
        assert(pos + 1 + 2 + value_pieces(Seq::<char>::empty(), p[k].1).len() == off + args_pieces(p, k + 1).len());
        assert(p.take(k).push(p[k]) =~= p.take(k + 1));
        lemma_more_args_parse(ts, p, k + 1, off);
    }
}

proof fn lemma_args_parse(ts: Seq<TokenModel>, p: Seq<(Seq<char>, Seq<char>)>, off: int)
    requires
        p.len() > 0,
        forall|i: int| 0 <= i < p.len() ==> plain_word((#[trigger] p[i]).0) && value_form(p[i].1),
        agree(ts, args_pieces(p, p.len() as int), off),
        off + args_pieces(p, p.len() as int).len() < ts.len(),
        ts[off + args_pieces(p, p.len() as int).len()].ttype != TokenType::Comma,
    ensures
        arg_list_spec(ts, off) == Ok::<(SlotDataModel, int), ParseErrorModel>(
            (SlotDataModel::Args(p), off + args_pieces(p, p.len() as int).len()),
        ),
{
    let n = p.len() as int;
    lemma_args_prefix(p, 0, n);
    let g = arg_group(p, 0);
    let rest = args_pieces(p, n).skip(args_pieces(p, 1).len() as int);
    assert(args_pieces(p, 0) =~= Seq::<Piece>::empty());
    assert(Seq::<Piece>::empty() + g =~= g);
    lemma_agree_split(ts, g, rest, off);
    assert(g =~= seq![word_piece(" "@, p[0].0), sym_piece(Seq::empty(), "="@, TokenType::Eq)] + value_pieces(
        Seq::empty(),
        p[0].1,
    ));
    lemma_arg_parse(ts, p, 0, off);
    assert(p.take(1) =~= seq![p[0]]);
    lemma_more_args_parse(ts, p, 1, off);
}

proof fn lemma_op_cmp(o: Seq<char>)
    requires
        op_type(o) is Some,
    ensures
        cmp_op(op_type(o).unwrap()) == Some(o),
        op_type(o).unwrap() != TokenType::Eof && op_type(o).unwrap() != TokenType::Comma,
{
}

proof fn lemma_slot_value_parse(ts: Seq<TokenModel>, sm: SlotModel, d: SlotDataModel, off: int)
    requires
        surface_fits(sm, d),
        agree(ts, value_text_pieces(d), off),
        off + value_text_pieces(d).len() < ts.len(),
        ts[off + value_text_pieces(d).len()].ttype != TokenType::Comma,
    ensures
        slot_value_spec(ts, off, sm) == Ok::<(SlotDataModel, int), ParseErrorModel>(
            (d, off + value_text_pieces(d).len()),
        ),
{
    let vtp = value_text_pieces(d);
    assert(ts[off + 0] == ts[off]);
    match d {
        SlotDataModel::Str(v) => {},
        SlotDataModel::Ident(v) => {
            lemma_word_type_not_eof(v);
        },
        SlotDataModel::Cond(f, o, v) => {
            lemma_op_cmp(o);
            let two = seq![vtp[0], vtp[1]];
            let vp = value_pieces(" "@, v);
            assert(vtp =~= two + vp);
            lemma_agree_split(ts, two, vp, off);
            assert(ts[off].ttype == TokenType::Identifier);
            assert(ts[off + 1].ttype == op_type(o).unwrap());
            lemma_value_parse(ts, " "@, v, off + 2);
        },
        SlotDataModel::Args(p) => {
            lemma_args_parse(ts, p, off);
        },
    }
}

/// The slots read from the first `j` slot lines.
pub open spec fn slots_upto(kind: Kind, slots: Map<Seq<char>, SlotDataModel>, j: int) -> Map<Seq<char>, SlotDataModel>
    decreases j,
{
    if j <= 0 {
        Map::empty()
    } else {
        let name = kind_slots(kind)[j - 1].name;
        slots_upto(kind, slots, j - 1).insert(name, slots[name])
    }
}

proof fn lemma_slots_prefix(kind: Kind, slots: Map<Seq<char>, SlotDataModel>, k: int, n: int)
    requires
        0 <= k < n,
    ensures
        slots_pieces(kind, slots, n) == slots_pieces(kind, slots, k + 1) + slots_pieces(kind, slots, n).skip(
            slots_pieces(kind, slots, k + 1).len() as int,
        ),
        slots_pieces(kind, slots, k + 1) == slots_pieces(kind, slots, k) + line_pieces(
            kind_slots(kind)[k].keyword,
            slots[kind_slots(kind)[k].name],
        ),
    decreases n,
{
    if n > k + 1 {
        lemma_slots_prefix(kind, slots, k, n - 1);
        let a = slots_pieces(kind, slots, n - 1);
        let l = slots_pieces(kind, slots, k + 1).len() as int;
        let lp = line_pieces(kind_slots(kind)[n - 1].keyword, slots[kind_slots(kind)[n - 1].name]);
        assert(slots_pieces(kind, slots, n) == a + lp);
        assert(slots_pieces(kind, slots, n).skip(l) =~= a.skip(l) + lp);
        assert(slots_pieces(kind, slots, n) =~= slots_pieces(kind, slots, k + 1) + slots_pieces(kind, slots, n).skip(l));
    } else {
        assert(slots_pieces(kind, slots, n).skip(slots_pieces(kind, slots, k + 1).len() as int) =~= Seq::<Piece>::empty());
        assert(slots_pieces(kind, slots, n) =~= slots_pieces(kind, slots, k + 1) + Seq::<Piece>::empty());
    }
}

proof fn lemma_body_parse(ts: Seq<TokenModel>, kind: Kind, slots: Map<Seq<char>, SlotDataModel>, j: int, off: int)
    requires
        slots_fit(kind, slots),
        0 <= j <= kind_slots(kind).len(),
        agree(ts, slots_pieces(kind, slots, kind_slots(kind).len() as int), off),
        off + slots_pieces(kind, slots, kind_slots(kind).len() as int).len() < ts.len(),
        ts[off + slots_pieces(kind, slots, kind_slots(kind).len() as int).len()].ttype != TokenType::Comma,
    ensures
        body_spec(ts, off + slots_pieces(kind, slots, j).len(), kind, j, slots_upto(kind, slots, j)) == Ok::<
            (Map<Seq<char>, SlotDataModel>, int),
            ParseErrorModel,
        >((slots_upto(kind, slots, kind_slots(kind).len() as int), off + slots_pieces(kind, slots, kind_slots(kind).len() as int).len())),
    decreases kind_slots(kind).len() - j,
{
    let n = kind_slots(kind).len() as int;
    if j < n {
        let sm = kind_slots(kind)[j];
        let d = slots[sm.name];
        assert(surface_fits(sm, d));
        lemma_slots_prefix(kind, slots, j, n);
        let lp = line_pieces(sm.keyword, d);
        let rest = slots_pieces(kind, slots, n).skip(slots_pieces(kind, slots, j + 1).len() as int);
        lemma_agree_split(ts, slots_pieces(kind, slots, j + 1), rest, off);
        lemma_agree_split(ts, slots_pieces(kind, slots, j), lp, off);
        let pos = off + slots_pieces(kind, slots, j).len();
        let vtp = value_text_pieces(d);
        assert(lp =~= seq![lp[0]] + vtp);
        lemma_agree_split(ts, seq![lp[0]], vtp, pos);
        assert(ts[pos + 0] == ts[pos]);
        assert(ts[pos].value == sm.keyword);
        lemma_word_type_not_eof(sm.keyword);
        let after = pos + 1 + vtp.len();
        assert(after == off + slots_pieces(kind, slots, j + 1).len());
        if j + 1 < n {
            lemma_slots_prefix(kind, slots, j + 1, n);
            let nsm = kind_slots(kind)[j + 1];
            let nlp = line_pieces(nsm.keyword, slots[nsm.name]);
            let rest2 = slots_pieces(kind, slots, n).skip(slots_pieces(kind, slots, j + 2).len() as int);
            lemma_agree_split(ts, slots_pieces(kind, slots, j + 2), rest2, off);
            lemma_agree_split(ts, slots_pieces(kind, slots, j + 1), nlp, off);
            assert(ts[after + 0] == ts[after]);
            lemma_word_type_not_eof(nsm.keyword);
        }
        lemma_slot_value_parse(ts, sm, d, pos + 1);
        lemma_body_parse(ts, kind, slots, j + 1, off);
    }
}

proof fn lemma_slots_upto_all(kind: Kind, slots: Map<Seq<char>, SlotDataModel>, j: int)
    requires
        0 <= j <= kind_slots(kind).len(),
    ensures
        forall|k: Seq<char>|
            #[trigger] slots_upto(kind, slots, j).dom().contains(k) <==> exists|i: int| 0 <= i < j && kind_slots(kind)[i].name == k,
        forall|k: Seq<char>| #[trigger] slots_upto(kind, slots, j).dom().contains(k) ==> slots_upto(kind, slots, j)[k] == slots[k],
    decreases j,
{
    if j > 0 {
        lemma_slots_upto_all(kind, slots, j - 1);
        let name = kind_slots(kind)[j - 1].name;
        assert forall|k: Seq<char>| #[trigger] slots_upto(kind, slots, j).dom().contains(k) <==> exists|i: int|
            0 <= i < j && kind_slots(kind)[i].name == k by {
            if slots_upto(kind, slots, j).dom().contains(k) && k != name {
                assert(slots_upto(kind, slots, j - 1).dom().contains(k));
            }
            if exists|i: int| 0 <= i < j && kind_slots(kind)[i].name == k {
                let i = choose|i: int| 0 <= i < j && kind_slots(kind)[i].name == k;
                if i < j - 1 {
                    assert(slots_upto(kind, slots, j - 1).dom().contains(k));
                }
            }
        }
        assert forall|k: Seq<char>| #[trigger] slots_upto(kind, slots, j).dom().contains(k) implies slots_upto(
            kind,
            slots,
            j,
        )[k] == slots[k] by {
            if k != name {
                assert(slots_upto(kind, slots, j - 1).dom().contains(k));
            }
        }
    }
}

proof fn lemma_reserved_words(kind: Kind)
    ensures
        word_type("NODE"@) == TokenType::Node,
        word_type("END"@) == TokenType::End,
        word_type(kind_name(kind)) == TokenType::Kind,
{
    reveal_strlit("NODE");
    reveal_strlit("END");
    reveal_strlit("ROLE");
    reveal_strlit("TASK");
    reveal_strlit("FILTER");
    reveal_strlit("STEP");
    reveal_strlit("CLASSIFY");
    reveal_strlit("SPAWN");
    reveal_strlit("TOOL");
    reveal_strlit("DOCUMENT");
    reveal_strlit("REJECT_MARK");
    reveal_strlit("EDGES");
    lemma_kind_name_round_trip(kind);
    assert("NODE"@[0] == 'N');
    assert("END"@[0] == 'E' && "END"@.len() == 3);
}

/// The surface text of a node lexes into tokens that carry the types and
/// values of its pieces, then the end.
proof fn lemma_surface_tokens(kind: Kind, subtype: Subtype, node_id: Seq<char>, slots: Map<Seq<char>, SlotDataModel>)
    requires
        plain_word(node_id),
        slots_fit(kind, slots),
    ensures
        lex_spec(surface_form(kind, subtype, node_id, slots)) matches Ok(ts) && ts.len() == node_pieces(
            kind,
            subtype,
            node_id,
            slots,
        ).len() + 1 && agree(ts, node_pieces(kind, subtype, node_id, slots), 0) && ts[node_pieces(
            kind,
            subtype,
            node_id,
            slots,
        ).len() as int].ttype == TokenType::Eof,
{
    let ps = node_pieces(kind, subtype, node_id, slots);
    lemma_node_text(kind, subtype, node_id, slots);
    lemma_node_pieces_ok(kind, subtype, node_id, slots);
    lemma_lex_text(ps);
    let ts = lex_spec(surface_form(kind, subtype, node_id, slots))->Ok_0;
    assert(token_pairs(ts) == piece_tokens(ps).push((TokenType::Eof, Seq::<char>::empty())));
    assert(ts.len() == ps.len() + 1);
    assert forall|k: int| 0 <= k < ps.len() implies (#[trigger] ts[0 + k]).ttype == ps[k].ttype && ts[0 + k].value
        == ps[k].value by {
        assert(token_pairs(ts)[k] == (ts[k].ttype, ts[k].value));
        assert(piece_tokens(ps)[k] == (ps[k].ttype, ps[k].value));
    }
    assert(token_pairs(ts)[ps.len() as int] == (ts[ps.len() as int].ttype, ts[ps.len() as int].value));
}

/// The declaration read from the tokens of a node's pieces.
proof fn lemma_decl_parse(ts: Seq<TokenModel>, kind: Kind, subtype: Subtype, node_id: Seq<char>, slots: Map<Seq<char>, SlotDataModel>)
    requires
        subtype == kind_subtype(kind),
        plain_word(node_id),
        slots_fit(kind, slots),
        forall|k: Seq<char>|
            #[trigger] slots.dom().contains(k) <==> exists|j: int| 0 <= j < kind_slots(kind).len() && kind_slots(kind)[j].name == k,
        agree(ts, node_pieces(kind, subtype, node_id, slots), 0),
        ts.len() > node_pieces(kind, subtype, node_id, slots).len(),
    ensures
        node_decl_spec(ts, 0) == Ok::<(NodeModel, int), ParseErrorModel>(
            (new_node(node_id, subtype, kind, slots), node_pieces(kind, subtype, node_id, slots).len() as int),
        ),
{
    let ps = node_pieces(kind, subtype, node_id, slots);
    let n = kind_slots(kind).len() as int;
    let h = header_pieces(node_id, kind, subtype);
    let sp = slots_pieces(kind, slots, n);
    let endp = seq![word_piece("\n"@, "END"@)];
    assert(ps == h + sp + endp);
    lemma_agree_split(ts, h + sp, endp, 0);
    lemma_agree_split(ts, h, sp, 0);
    lemma_reserved_words(kind);
    lemma_subtype_name_round_trip(subtype);
    lemma_kind_name_round_trip(kind);
    lemma_word_type_not_eof(subtype_name(subtype));
    assert forall|k: int| 0 <= k < 7 implies #[trigger] ts[k] == ts[0 + k] by {}
    assert(ts[0].ttype == TokenType::Node);
    assert(ts[1].ttype == TokenType::Identifier && ts[1].value == node_id);
    assert(ts[2].ttype == TokenType::Colon);
    assert(ts[3].ttype == TokenType::Kind && ts[3].value == kind_name(kind));
    assert(ts[4].ttype == TokenType::LBracket);
    assert(ts[5].value == subtype_name(subtype) && ts[5].ttype != TokenType::Eof);
    assert(ts[6].ttype == TokenType::RBracket);
    let endpos = (7 + sp.len()) as int;
    assert(ts[endpos + 0] == ts[endpos]);
    assert(ts[endpos].ttype == TokenType::End);
    lemma_body_parse(ts, kind, slots, 0, 7);
    assert(slots_pieces(kind, slots, 0) =~= Seq::<Piece>::empty());
    lemma_slots_upto_all(kind, slots, n);
    assert(slots_upto(kind, slots, n) =~= slots);
    reveal(node_decl_spec);
}

/// Writing a node in the surface syntax and parsing the text back gives the
/// node the registry builds from the same id, kind and slots, and so the
/// same cache key, when the node's id is an identifier and each slot holds
/// a value the syntax writes whole (a string without quotes, an identifier,
/// an option of the slot, a comparison with a value, a non-empty argument
/// list).
pub proof fn lemma_surface_round_trip(kind: Kind, subtype: Subtype, node_id: Seq<char>, slots: Map<Seq<char>, SlotDataModel>)
    requires
        subtype == kind_subtype(kind),
        plain_word(node_id),
        slots_fit(kind, slots),
        forall|k: Seq<char>|
            #[trigger] slots.dom().contains(k) <==> exists|j: int| 0 <= j < kind_slots(kind).len() && kind_slots(kind)[j].name == k,
    ensures
        fragment_parse_spec(surface_form(kind, subtype, node_id, slots)) == Ok::<Seq<NodeModel>, ParseErrorModel>(
            seq![new_node(node_id, subtype, kind, slots)],
        ),
{
    let ps = node_pieces(kind, subtype, node_id, slots);
    lemma_surface_tokens(kind, subtype, node_id, slots);
    let ts = lex_spec(surface_form(kind, subtype, node_id, slots))->Ok_0;
    lemma_decl_parse(ts, kind, subtype, node_id, slots);
    let node = new_node(node_id, subtype, kind, slots);
    let e = ps.len() as int;
    assert(ts[0int + 0int] == ts[0int]);
    lemma_reserved_words(kind);
    assert(ps[0] == header_pieces(node_id, kind, subtype)[0]);
    assert(ts[0].ttype == TokenType::Node);
    assert(e <= ts.len());
    assert(fragment_spec(ts, e, seq![node]) == Ok::<(Seq<NodeModel>, int), ParseErrorModel>((seq![node], e)));
    assert(Seq::<NodeModel>::empty().push(node) =~= seq![node]);
    assert(fragment_spec(ts, 0, Seq::empty()) == Ok::<(Seq<NodeModel>, int), ParseErrorModel>((seq![node], e)));
}
// ---------------------------------------------------------------------
// The example node of a kind
// ---------------------------------------------------------------------

/// The value a synthesized example gives a slot.
pub open spec fn example_value(s: SlotModel) -> SlotDataModel {
    match s.value {
        SlotValueModel::Str => SlotDataModel::Str("example value"@),
        SlotValueModel::Ident => SlotDataModel::Ident("out"@),
        SlotValueModel::Cond => SlotDataModel::Cond("field"@, "="@, "\"value\""@),
        SlotValueModel::Args => SlotDataModel::Args(seq![("name"@, "\"value\""@)]),
        SlotValueModel::Enum(opts) => SlotDataModel::Ident(opts[0]),
    }
}

/// The example values of the first `j` slots of a kind.
pub open spec fn example_slots(kind: Kind, j: int) -> Map<Seq<char>, SlotDataModel>
    decreases j,
{
    if j <= 0 {
        Map::empty()
    } else {
        example_slots(kind, j - 1).insert(kind_slots(kind)[j - 1].name, example_value(kind_slots(kind)[j - 1]))
    }
}

proof fn lemma_example_slots(kind: Kind, j: int)
    requires
        0 <= j <= kind_slots(kind).len(),
    ensures
        forall|k: Seq<char>|
            #[trigger] example_slots(kind, j).dom().contains(k) <==> exists|i: int| 0 <= i < j && kind_slots(kind)[i].name == k,
        forall|i: int| 0 <= i < j ==> example_slots(kind, j)[#[trigger] kind_slots(kind)[i].name] == example_value(kind_slots(kind)[i]),
    decreases j,
{
    if j > 0 {
        lemma_example_slots(kind, j - 1);
        crate::roundtrip::lemma_kind_words(kind);
        let ss = kind_slots(kind);
        let name = ss[j - 1].name;
        assert forall|k: Seq<char>| #[trigger] example_slots(kind, j).dom().contains(k) <==> exists|i: int|
            0 <= i < j && ss[i].name == k by {
            if example_slots(kind, j).dom().contains(k) && k != name {
                assert(example_slots(kind, j - 1).dom().contains(k));
            }
            if exists|i: int| 0 <= i < j && ss[i].name == k {
                let i = choose|i: int| 0 <= i < j && ss[i].name == k;
                if i < j - 1 {
                    assert(example_slots(kind, j - 1).dom().contains(k));
                }
            }
        }
        assert forall|i: int| 0 <= i < j implies example_slots(kind, j)[#[trigger] ss[i].name] == example_value(ss[i]) by {
            if i < j - 1 {
                assert(ss[i].name != name);
            }
        }
    }
}

/// A word of lower-case ASCII letters is a plain identifier: no keyword,
/// kind, subtype, slot keyword or option is written in lower case.
proof fn lemma_lower_plain(w: Seq<char>)
    requires
        w.len() > 0,
        forall|i: int| 0 <= i < w.len() ==> 'a' <= #[trigger] w[i] <= 'z',
    ensures
        plain_word(w),
{
    assert(('a' as u32) == 97 && ('z' as u32) == 122);
    assert forall|i: int| 0 <= i < w.len() implies ident_char(#[trigger] w[i]) by {
        assert((w[i] as u32) < 128);
    }
    assert((w[0] as u32) < 128);
    reveal_strlit("NODE");
    reveal_strlit("EDGES");
    reveal_strlit("END");
    reveal_strlit("GENERATIVE");
    reveal_strlit("EXTERNAL");
    reveal_strlit("REJECT");
    reveal_strlit("ROLE");
    reveal_strlit("TASK");
    reveal_strlit("FILTER");
    reveal_strlit("STEP");
    reveal_strlit("CLASSIFY");
    reveal_strlit("SPAWN");
    reveal_strlit("TOOL");
    reveal_strlit("DOCUMENT");
    reveal_strlit("REJECT_MARK");
    assert(w[0] != 'N' && w[0] != 'E' && w[0] != 'G' && w[0] != 'R' && w[0] != 'T' && w[0] != 'F' && w[0] != 'S'
        && w[0] != 'C' && w[0] != 'D');
    assert(!is_slot_word(w)) by {
        if is_slot_word(w) {
            let i = choose|i: int|
                0 <= i < all_kinds().len() && slots_have_word(
                    #[trigger] kind_slots(all_kinds()[i]),
                    kind_slots(all_kinds()[i]).len() as int,
                    w,
                );
            let k = all_kinds()[i];
            let ss = kind_slots(k);
            let j = choose|j: int| 0 <= j < ss.len() && slot_has_word(#[trigger] ss[j], w);
            lemma_keywords(k, kind_subtype(k));
            let kw = ss[j].keyword;
            assert(is_word(kw));
            assert('A' <= kw[0] <= 'Z') by {
                reveal_strlit("AS");
                reveal_strlit("GIVEN");
                reveal_strlit("PRODUCE");
                reveal_strlit("WHERE");
                reveal_strlit("INTO");
                reveal_strlit("DO");
                reveal_strlit("INPUT");
                reveal_strlit("LABELS");
                reveal_strlit("PLAN");
                reveal_strlit("CALL");
                reveal_strlit("WITH");
                reveal_strlit("FROM");
                reveal_strlit("CAUSE");
                reveal_strlit("REASON");
            }
            if kw == w {
                assert(kw[0] == w[0]);
            }
            match ss[j].value {
                SlotValueModel::Enum(opts) => {
                    reveal_strlit("SYNTAX");
                    reveal_strlit("TYPE");
                    reveal_strlit("BUDGET");
                    if opts.contains(w) {
                        let m = opts.index_of(w);
                        assert(opts[m][0] == w[0]);
                    }
                },
                _ => {},
            }
        }
    }
}

/// The example values fit the surface syntax, and are what the example
/// source writes.
proof fn lemma_example_fits(s: SlotModel)
    requires
        s.value is Enum ==> s.value->Enum_0 == reject_reasons(),
    ensures
        surface_fits(s, example_value(s)),
        surface_value_of(example_value(s)) == placeholder(s.value),
{
    reveal_strlit("example value");
    reveal_strlit("\"example value\"");
    reveal_strlit("out");
    reveal_strlit("field");
    reveal_strlit("=");
    reveal_strlit("\"value\"");
    reveal_strlit("field = \"value\"");
    reveal_strlit("name");
    reveal_strlit("name=\"value\"");
    reveal_strlit(" ");
    reveal_strlit(", ");
    lemma_lower_plain("out"@);
    lemma_lower_plain("field"@);
    lemma_lower_plain("name"@);
    let qv = "\"value\""@;
    assert(qv.subrange(1, qv.len() - 1) =~= "value"@) by {
        reveal_strlit("value");
    }
    assert(value_form(qv)) by {
        reveal_strlit("value");
        assert(qv =~= quote(qv.subrange(1, qv.len() - 1)));
        assert(!qv.subrange(1, qv.len() - 1).contains('"'));
    }
    match s.value {
        SlotValueModel::Str => {
            assert(!"example value"@.contains('"'));
            assert(quote("example value"@) =~= "\"example value\""@);
        },
        SlotValueModel::Cond => {
            assert("field"@ + " "@ + "="@ + " "@ + qv =~= "field = \"value\""@);
        },
        SlotValueModel::Args => {
            let p = seq![("name"@, qv)];
            assert(arg_texts(p)[0] == "name"@ + "="@ + qv);
            assert(arg_texts(p).len() == 1);
            assert(join(arg_texts(p), ", "@) == arg_texts(p)[0]);
            assert("name"@ + "="@ + qv =~= "name=\"value\""@);
        },
        SlotValueModel::Enum(opts) => {
            assert(opts.contains(opts[0]));
        },
        _ => {},
    }
}

/// The example source the registry synthesizes for a kind, under any
/// identifier, parses as one node of that kind: the node the registry
/// builds from the example values of the kind's slots.
pub proof fn lemma_example_source_parses(kind: Kind, node_id: Seq<char>)
    requires
        plain_word(node_id),
    ensures
        fragment_parse_spec(example_source(kind, node_id)) == Ok::<Seq<NodeModel>, ParseErrorModel>(
            seq![new_node(node_id, kind_subtype(kind), kind, example_slots(kind, kind_slots(kind).len() as int))],
        ),
{
    let n = kind_slots(kind).len() as int;
    let st = kind_subtype(kind);
    let ex = example_slots(kind, n);
    lemma_example_slots(kind, n);
    let ss = kind_slots(kind);
    assert forall|j: int| 0 <= j < n implies surface_fits(#[trigger] ss[j], ex[ss[j].name]) by {
        assert(ss[j].value is Enum ==> ss[j].value->Enum_0 == reject_reasons());
        lemma_example_fits(ss[j]);
    }
    assert(slots_fit(kind, ex));
    let a = surface_lines(kind, st, node_id, ex);
    let b = seq![header_line(node_id, kind, st)] + ss.map_values(|s: SlotModel| "  "@ + s.keyword + " "@ + placeholder(s.value))
        + seq!["END"@];
    assert(a =~= b) by {
        assert(a.len() == b.len());
        assert forall|i: int| 0 <= i < a.len() implies #[trigger] a[i] == b[i] by {
            if 1 <= i <= n {
                let j = i - 1;
                assert(ss[j].value is Enum ==> ss[j].value->Enum_0 == reject_reasons());
                lemma_example_fits(ss[j]);
            }
        }
    }
    assert(example_source(kind, node_id) == surface_form(kind, st, node_id, ex));
    lemma_surface_round_trip(kind, st, node_id, ex);
}

} // verus!
