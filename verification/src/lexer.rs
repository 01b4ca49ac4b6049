//! The lexer: source text to a flat stream of tokens with their line and
//! column. It knows nothing of nodes or edges.
//!
//! The token stream of a source is defined by `lex_spec`: trivia (layout
//! characters and `#` comments up to the end of the line) is skipped, then
//! one token is scanned by `scan_spec`, and so on until the end of the
//! source, where an `Eof` token closes the stream.

use vstd::prelude::*;
use crate::registry::{is_slot_word, keywords, kind_from_name, Kind};
use crate::text::{
    char_debug, char_debug_string, chars_to_string, is_alphabetic, is_alphanumeric, owned,
    push_char, str_eq, string_views, to_chars, alpha_char, alnum_char, append,
};

verus! {

#[derive(Debug, Clone, Copy, PartialEq, Eq, Structural)]
pub enum TokenType {
    Node,
    Edges,
    End,
    Generative,
    External,
    Reject,
    Kind,
    SlotKeyword,
    ArrowSeq,
    ArrowBranch,
    ArrowMerge,
    Colon,
    Comma,
    LBracket,
    RBracket,
    At,
    Eq,
    Neq,
    Gt,
    Lt,
    Gte,
    Lte,
    Identifier,
    String,
    Number,
    Eof,
}

#[derive(Debug, Clone)]
pub struct Token {
    pub ttype: TokenType,
    pub value: String,
    pub line: usize,
    pub col: usize,
}

impl Token {
    /// A copy of the token.
    pub fn duplicate(&self) -> (res: Token)
        ensures
            res@ == self@,
    {
        Token { ttype: self.ttype, value: self.value.clone(), line: self.line, col: self.col }
    }
}

pub struct TokenModel {
    pub ttype: TokenType,
    pub value: Seq<char>,
    pub line: int,
    pub col: int,
}

impl View for Token {
    type V = TokenModel;

    open spec fn view(&self) -> TokenModel {
        TokenModel { ttype: self.ttype, value: self.value@, line: self.line as int, col: self.col as int }
    }
}

#[derive(Debug)]
pub struct LuckLexError {
    pub message: String,
    pub line: usize,
    pub col: usize,
}

pub struct LexErrorModel {
    pub message: Seq<char>,
    pub line: int,
    pub col: int,
}

impl View for LuckLexError {
    type V = LexErrorModel;

    open spec fn view(&self) -> LexErrorModel {
        LexErrorModel { message: self.message@, line: self.line as int, col: self.col as int }
    }
}

// ---------------------------------------------------------------------
// The token stream of a source, as a function of the source.
// ---------------------------------------------------------------------

/// Line and column (both from 1) of position `pos` of `s`.
pub open spec fn line_col(s: Seq<char>, pos: int) -> (int, int)
    decreases pos,
{
    if pos <= 0 {
        (1, 1)
    } else {
        let lc = line_col(s, pos - 1);
        if s[pos - 1] == '\n' {
            (lc.0 + 1, 1)
        } else {
            (lc.0, lc.1 + 1)
        }
    }
}

pub open spec fn is_layout(c: char) -> bool {
    c == ' ' || c == '\t' || c == '\r' || c == '\n'
}

/// The position after the trivia that starts at `pos`; `in_comment` when
/// `pos` is inside a `#` comment.
pub open spec fn skip_trivia(s: Seq<char>, pos: int, in_comment: bool) -> int
    decreases s.len() - pos, if in_comment { 1int } else { 0int },
{
    if pos < 0 || pos >= s.len() {
        pos
    } else if in_comment {
        if s[pos] == '\n' {
            skip_trivia(s, pos, false)
        } else {
            skip_trivia(s, pos + 1, true)
        }
    } else if is_layout(s[pos]) {
        skip_trivia(s, pos + 1, false)
    } else if s[pos] == '#' {
        skip_trivia(s, pos + 1, true)
    } else {
        pos
    }
}

/// The first position at or after `i` whose character fails `keep`, or the end.
pub open spec fn span_end(s: Seq<char>, i: int, keep: spec_fn(char) -> bool) -> int
    decreases s.len() - i,
{
    if i < 0 || i >= s.len() {
        i
    } else if keep(s[i]) {
        span_end(s, i + 1, keep)
    } else {
        i
    }
}

pub open spec fn is_digit(c: char) -> bool {
    '0' <= c <= '9'
}

pub open spec fn not_quote(c: char) -> bool {
    c != '"'
}

pub open spec fn ident_char(c: char) -> bool {
    alnum_char(c) || c == '_'
}

pub open spec fn digit_class() -> spec_fn(char) -> bool {
    |x: char| is_digit(x)
}

pub open spec fn ident_class() -> spec_fn(char) -> bool {
    |x: char| ident_char(x)
}

pub open spec fn string_class() -> spec_fn(char) -> bool {
    |x: char| not_quote(x)
}

/// The token type of a word read as an identifier: a kind name, a reserved
/// word, a slot keyword of the registry, or an ordinary identifier.
pub open spec fn word_type(w: Seq<char>) -> TokenType {
    if kind_from_name(w).is_some() {
        TokenType::Kind
    } else if w == "NODE"@ {
        TokenType::Node
    } else if w == "EDGES"@ {
        TokenType::Edges
    } else if w == "END"@ {
        TokenType::End
    } else if w == "GENERATIVE"@ {
        TokenType::Generative
    } else if w == "EXTERNAL"@ {
        TokenType::External
    } else if w == "REJECT"@ {
        TokenType::Reject
    } else if is_slot_word(w) {
        TokenType::SlotKeyword
    } else {
        TokenType::Identifier
    }
}

/// The two-character operators.
pub open spec fn two_char_op(a: char, b: char) -> Option<TokenType> {
    if a == '-' && b == '>' {
        Some(TokenType::ArrowSeq)
    } else if a == '=' && b == '>' {
        Some(TokenType::ArrowBranch)
    } else if a == '~' && b == '>' {
        Some(TokenType::ArrowMerge)
    } else if a == '!' && b == '=' {
        Some(TokenType::Neq)
    } else if a == '>' && b == '=' {
        Some(TokenType::Gte)
    } else if a == '<' && b == '=' {
        Some(TokenType::Lte)
    } else {
        None
    }
}

/// The one-character tokens.
pub open spec fn one_char_op(c: char) -> Option<TokenType> {
    if c == ':' {
        Some(TokenType::Colon)
    } else if c == ',' {
        Some(TokenType::Comma)
    } else if c == '[' {
        Some(TokenType::LBracket)
    } else if c == ']' {
        Some(TokenType::RBracket)
    } else if c == '@' {
        Some(TokenType::At)
    } else if c == '=' {
        Some(TokenType::Eq)
    } else if c == '>' {
        Some(TokenType::Gt)
    } else if c == '<' {
        Some(TokenType::Lt)
    } else {
        None
    }
}

pub open spec fn tok(s: Seq<char>, p: int, ttype: TokenType, value: Seq<char>) -> TokenModel {
    TokenModel { ttype, value, line: line_col(s, p).0, col: line_col(s, p).1 }
}

pub open spec fn lex_err(s: Seq<char>, p: int, message: Seq<char>) -> LexErrorModel {
    LexErrorModel { message, line: line_col(s, p).0, col: line_col(s, p).1 }
}

/// The character after `p`, or NUL past the end.
pub open spec fn next_char(s: Seq<char>, p: int) -> char {
    if p + 1 < s.len() {
        s[p + 1]
    } else {
        '\0'
    }
}

/// The token that starts at `p` (a position with no trivia, before the
/// end) and the position after it.
pub open spec fn scan_spec(s: Seq<char>, p: int) -> Result<(TokenModel, int), LexErrorModel> {
    let c = s[p];
    if c == '"' {
        let q = span_end(s, p + 1, string_class());
        if q >= s.len() {
            Err(lex_err(s, p, "незакрытый строковый литерал"@))
        } else {
            Ok((tok(s, p, TokenType::String, s.subrange(p + 1, q)), q + 1))
        }
    } else if is_digit(c) {
        let e = span_end(s, p, digit_class());
        Ok((tok(s, p, TokenType::Number, s.subrange(p, e)), e))
    } else if alpha_char(c) || c == '_' {
        let e = span_end(s, p + 1, ident_class());
        Ok((tok(s, p, word_type(s.subrange(p, e)), s.subrange(p, e)), e))
    } else if two_char_op(c, next_char(s, p)).is_some() {
        Ok((tok(s, p, two_char_op(c, next_char(s, p)).unwrap(), seq![c, next_char(s, p)]), p + 2))
    } else if one_char_op(c).is_some() {
        Ok((tok(s, p, one_char_op(c).unwrap(), seq![c]), p + 1))
    } else {
        Err(lex_err(s, p, "неожиданный символ "@ + char_debug(c)))
    }
}

pub proof fn lemma_skip_trivia_bounds(s: Seq<char>, pos: int, in_comment: bool)
    requires
        0 <= pos <= s.len(),
    ensures
        pos <= skip_trivia(s, pos, in_comment) <= s.len(),
    decreases s.len() - pos, if in_comment { 1int } else { 0int },
{
    if pos < s.len() {
        if in_comment {
            if s[pos] == '\n' {
                lemma_skip_trivia_bounds(s, pos, false);
            } else {
                lemma_skip_trivia_bounds(s, pos + 1, true);
            }
        } else if is_layout(s[pos]) {
            lemma_skip_trivia_bounds(s, pos + 1, false);
        } else if s[pos] == '#' {
            lemma_skip_trivia_bounds(s, pos + 1, true);
        }
    }
}

pub proof fn lemma_span_end_bounds(s: Seq<char>, i: int, keep: spec_fn(char) -> bool)
    requires
        0 <= i <= s.len(),
    ensures
        i <= span_end(s, i, keep) <= s.len(),
        span_end(s, i, keep) < s.len() ==> !keep(s[span_end(s, i, keep)]),
        forall|j: int| i <= j < span_end(s, i, keep) ==> keep(#[trigger] s[j]),
    decreases s.len() - i,
{
    if i < s.len() && keep(s[i]) {
        lemma_span_end_bounds(s, i + 1, keep);
    }
}

pub proof fn lemma_scan_advances(s: Seq<char>, p: int)
    requires
        0 <= p < s.len(),
    ensures
        scan_spec(s, p) is Ok ==> p < scan_spec(s, p)->Ok_0.1 <= s.len(),
{
    lemma_span_end_bounds(s, p + 1, string_class());
    lemma_span_end_bounds(s, p, digit_class());
    lemma_span_end_bounds(s, p + 1, ident_class());
}

/// The tokens of `s` from position `pos` on.
pub open spec fn lex_from(s: Seq<char>, pos: int) -> Result<Seq<TokenModel>, LexErrorModel>
    decreases s.len() - pos,
{
    if pos < 0 || pos > s.len() {
        Ok(Seq::empty())
    } else {
        let p = skip_trivia(s, pos, false);
        if p >= s.len() {
            Ok(seq![tok(s, p, TokenType::Eof, Seq::empty())])
        } else {
            match scan_spec(s, p) {
                Err(e) => Err(e),
                Ok(r) => {
                    proof {
                        lemma_skip_trivia_bounds(s, pos, false);
                        lemma_scan_advances(s, p);
                    }
                    match lex_from(s, r.1) {
                        Err(e) => Err(e),
                        Ok(rest) => Ok(seq![r.0] + rest),
                    }
                },
            }
        }
    }
}

/// The token stream of a source.
pub open spec fn lex_spec(s: Seq<char>) -> Result<Seq<TokenModel>, LexErrorModel> {
    lex_from(s, 0)
}

pub open spec fn token_views(v: Seq<Token>) -> Seq<TokenModel> {
    v.map_values(|t: Token| t@)
}

/// `done` tokens followed by the stream `rest`.
pub open spec fn after(done: Seq<TokenModel>, rest: Result<Seq<TokenModel>, LexErrorModel>) -> Result<
    Seq<TokenModel>,
    LexErrorModel,
> {
    match rest {
        Ok(r) => Ok(done + r),
        Err(e) => Err(e),
    }
}

proof fn lemma_line_col_bounds(s: Seq<char>, pos: int)
    requires
        0 <= pos,
    ensures
        1 <= line_col(s, pos).0 <= pos + 1,
        1 <= line_col(s, pos).1 <= pos + 1,
    decreases pos,
{
    if pos > 0 {
        lemma_line_col_bounds(s, pos - 1);
    }
}

// ---------------------------------------------------------------------
// The executable lexer
// ---------------------------------------------------------------------

/// A position in the source with its line and column.
struct Cursor {
    pos: usize,
    line: usize,
    col: usize,
}

impl Cursor {
    spec fn wf(&self, s: Seq<char>) -> bool {
        &&& self.pos <= s.len()
        &&& s.len() < usize::MAX
        &&& (self.line as int, self.col as int) == line_col(s, self.pos as int)
    }
}

fn advance(src: &Vec<char>, cur: &mut Cursor) -> (ch: char)
    requires
        old(cur).wf(src@),
        old(cur).pos < src.len(),
    ensures
        final(cur).wf(src@),
        final(cur).pos == old(cur).pos + 1,
        ch == src@[old(cur).pos as int],
{
    let ch = src[cur.pos];
    proof {
        lemma_line_col_bounds(src@, cur.pos as int);
    }
    cur.pos += 1;
    if ch == '\n' {
        cur.line += 1;
        cur.col = 1;
    } else {
        cur.col += 1;
    }
    ch
}

fn skip_trivia_exec(src: &Vec<char>, cur: &mut Cursor)
    requires
        old(cur).wf(src@),
    ensures
        final(cur).wf(src@),
        final(cur).pos == skip_trivia(src@, old(cur).pos as int, false),
{
    let ghost start = cur.pos as int;
    let mut in_comment = false;
    while cur.pos < src.len() && (in_comment || src[cur.pos] == ' ' || src[cur.pos] == '\t'
        || src[cur.pos] == '\r' || src[cur.pos] == '\n' || src[cur.pos] == '#')
        invariant
            cur.wf(src@),
            skip_trivia(src@, start, false) == skip_trivia(src@, cur.pos as int, in_comment),
        decreases src.len() - cur.pos, if in_comment { 1int } else { 0int },
    {
        let c = src[cur.pos];
        if in_comment {
            if c == '\n' {
                in_comment = false;
            } else {
                advance(src, cur);
            }
        } else if c == '#' {
            advance(src, cur);
            in_comment = true;
        } else {
            advance(src, cur);
        }
    }
}

fn keeps(c: char, digits: bool) -> (res: bool)
    ensures
        digits ==> res == digit_class()(c),
        !digits ==> res == ident_class()(c),
{
    if digits {
        '0' <= c && c <= '9'
    } else {
        is_alphanumeric(c) || c == '_'
    }
}

fn span_end_exec(src: &Vec<char>, cur: &mut Cursor, out: &mut String, digits: bool)
    requires
        old(cur).wf(src@),
    ensures
        final(cur).wf(src@),
        old(cur).pos <= final(cur).pos,
        final(cur).pos == span_end(src@, old(cur).pos as int, if digits { digit_class() } else { ident_class() }),
        final(out)@ == old(out)@ + src@.subrange(old(cur).pos as int, final(cur).pos as int),
{
    let ghost start = cur.pos as int;
    let ghost keep = if digits { digit_class() } else { ident_class() };
    let ghost o = out@;
    assert(out@ =~= o + src@.subrange(start, start));
    while cur.pos < src.len() && keeps(src[cur.pos], digits)
        invariant
            cur.wf(src@),
            0 <= start <= cur.pos,
            keep == (if digits { digit_class() } else { ident_class() }),
            span_end(src@, start, keep) == span_end(src@, cur.pos as int, keep),
            out@ == o + src@.subrange(start, cur.pos as int),
        decreases src.len() - cur.pos,
    {
        let c = advance(src, cur);
        push_char(out, c);
        assert(out@ =~= o + src@.subrange(start, cur.pos as int));
    }
}

fn word_type_exec(w: &str, kws: &Vec<String>) -> (res: TokenType)
    requires
        forall|q: Seq<char>| string_views(kws@).contains(q) <==> is_slot_word(q),
    ensures
        res == word_type(w@),
{
    if Kind::parse(w).is_some() {
        TokenType::Kind
    } else if str_eq(w, "NODE") {
        TokenType::Node
    } else if str_eq(w, "EDGES") {
        TokenType::Edges
    } else if str_eq(w, "END") {
        TokenType::End
    } else if str_eq(w, "GENERATIVE") {
        TokenType::Generative
    } else if str_eq(w, "EXTERNAL") {
        TokenType::External
    } else if str_eq(w, "REJECT") {
        TokenType::Reject
    } else {
        let mut i: usize = 0;
        while i < kws.len()
            invariant
                i <= kws.len(),
                forall|j: int| 0 <= j < i ==> kws@[j]@ != w@,
                forall|q: Seq<char>| string_views(kws@).contains(q) <==> is_slot_word(q),
                word_type(w@) == (if is_slot_word(w@) { TokenType::SlotKeyword } else { TokenType::Identifier }),
            decreases kws.len() - i,
        {
            if str_eq(kws[i].as_str(), w) {
                assert(string_views(kws@)[i as int] == w@);
                assert(string_views(kws@).contains(w@));
                assert(is_slot_word(w@));
                return TokenType::SlotKeyword;
            }
            i += 1;
        }
        proof {
            if string_views(kws@).contains(w@) {
                let j = string_views(kws@).index_of(w@);
                assert(kws@[j]@ == w@);
            }
        }
        TokenType::Identifier
    }
}

fn two_char_op_exec(a: char, b: char) -> (res: Option<TokenType>)
    ensures
        res == two_char_op(a, b),
{
    if a == '-' && b == '>' {
        Some(TokenType::ArrowSeq)
    } else if a == '=' && b == '>' {
        Some(TokenType::ArrowBranch)
    } else if a == '~' && b == '>' {
        Some(TokenType::ArrowMerge)
    } else if a == '!' && b == '=' {
        Some(TokenType::Neq)
    } else if a == '>' && b == '=' {
        Some(TokenType::Gte)
    } else if a == '<' && b == '=' {
        Some(TokenType::Lte)
    } else {
        None
    }
}

fn one_char_op_exec(c: char) -> (res: Option<TokenType>)
    ensures
        res == one_char_op(c),
{
    if c == ':' {
        Some(TokenType::Colon)
    } else if c == ',' {
        Some(TokenType::Comma)
    } else if c == '[' {
        Some(TokenType::LBracket)
    } else if c == ']' {
        Some(TokenType::RBracket)
    } else if c == '@' {
        Some(TokenType::At)
    } else if c == '=' {
        Some(TokenType::Eq)
    } else if c == '>' {
        Some(TokenType::Gt)
    } else if c == '<' {
        Some(TokenType::Lt)
    } else {
        None
    }
}

/// Scans the token at the cursor (no trivia there, not at the end).
fn scan(src: &Vec<char>, cur: &mut Cursor, kws: &Vec<String>) -> (res: Result<Token, LuckLexError>)
    requires
        old(cur).wf(src@),
        old(cur).pos < src.len(),
        forall|q: Seq<char>| string_views(kws@).contains(q) <==> is_slot_word(q),
    ensures
        final(cur).wf(src@),
        match res {
            Ok(t) => scan_spec(src@, old(cur).pos as int) == Ok::<(TokenModel, int), LexErrorModel>((t@, final(cur).pos as int)),
            Err(e) => scan_spec(src@, old(cur).pos as int) == Err::<(TokenModel, int), LexErrorModel>(e@),
        },
{
    let ghost s = src@;
    let ghost p = cur.pos as int;
    let line = cur.line;
    let col = cur.col;
    let c = src[cur.pos];
    if c == '"' {
        advance(src, cur);
        let mut value = String::new();
        while cur.pos < src.len() && src[cur.pos] != '"'
            invariant
                cur.wf(s),
                src@ == s,
                0 <= p,
                p + 1 <= cur.pos,
                span_end(s, p + 1, string_class()) == span_end(s, cur.pos as int, |x: char| not_quote(x)),
                value@ == s.subrange(p + 1, cur.pos as int),
            decreases src.len() - cur.pos,
        {
            let d = advance(src, cur);
            push_char(&mut value, d);
            assert(value@ =~= s.subrange(p + 1, cur.pos as int));
        }
        if cur.pos >= src.len() {
            return Err(LuckLexError { message: owned("незакрытый строковый литерал"), line, col });
        }
        advance(src, cur);
        return Ok(Token { ttype: TokenType::String, value, line, col });
    }
    if '0' <= c && c <= '9' {
        let mut value = String::new();
        span_end_exec(src, cur, &mut value, true);
        assert(value@ =~= s.subrange(p, cur.pos as int));
        return Ok(Token { ttype: TokenType::Number, value, line, col });
    }
    if is_alphabetic(c) || c == '_' {
        let mut value = String::new();
        advance(src, cur);
        push_char(&mut value, c);
        span_end_exec(src, cur, &mut value, false);
        assert(value@ =~= s.subrange(p, cur.pos as int));
        let ttype = word_type_exec(value.as_str(), kws);
        return Ok(Token { ttype, value, line, col });
    }
    let d = if cur.pos + 1 < src.len() {
        src[cur.pos + 1]
    } else {
        '\0'
    };
    if let Some(tt) = two_char_op_exec(c, d) {
        advance(src, cur);
        if cur.pos < src.len() {
            advance(src, cur);
        }
        let mut value = String::new();
        push_char(&mut value, c);
        push_char(&mut value, d);
        assert(value@ =~= seq![c, d]);
        return Ok(Token { ttype: tt, value, line, col });
    }
    if let Some(tt) = one_char_op_exec(c) {
        advance(src, cur);
        let mut value = String::new();
        push_char(&mut value, c);
        assert(value@ =~= seq![c]);
        return Ok(Token { ttype: tt, value, line, col });
    }
    let mut message = owned("неожиданный символ ");
    let shown = char_debug_string(c);
    append(&mut message, shown.as_str());
    Err(LuckLexError { message, line, col })
}

/// Tokenizes a source given as characters.
pub fn tokenize_chars(src: &Vec<char>) -> (res: Result<Vec<Token>, LuckLexError>)
    requires
        src.len() < usize::MAX,
    ensures
        match res {
            Ok(toks) => lex_spec(src@) == Ok::<Seq<TokenModel>, LexErrorModel>(token_views(toks@)),
            Err(e) => lex_spec(src@) == Err::<Seq<TokenModel>, LexErrorModel>(e@),
        },
{
    let kws = keywords();
    let mut tokens: Vec<Token> = Vec::new();
    let mut cur = Cursor { pos: 0, line: 1, col: 1 };
    loop
        invariant
            cur.wf(src@),
            forall|q: Seq<char>| string_views(kws@).contains(q) <==> is_slot_word(q),
            lex_spec(src@) == after(token_views(tokens@), lex_from(src@, cur.pos as int)),
        decreases src.len() - cur.pos,
    {
        let ghost pos0 = cur.pos as int;
        skip_trivia_exec(src, &mut cur);
        proof {
            lemma_skip_trivia_bounds(src@, pos0, false);
        }
        let ghost done = token_views(tokens@);
        if cur.pos >= src.len() {
            tokens.push(Token { ttype: TokenType::Eof, value: String::new(), line: cur.line, col: cur.col });
            proof {
                assert(token_views(tokens@) =~= done + seq![tok(src@, cur.pos as int, TokenType::Eof, Seq::empty())]);
            }
            return Ok(tokens);
        }
        let ghost p = cur.pos as int;
        match scan(src, &mut cur, &kws) {
            Ok(t) => {
                proof {
                    lemma_scan_advances(src@, p);
                }
                tokens.push(t);
                proof {
                    assert(token_views(tokens@) =~= done + seq![t@]);
                    match lex_from(src@, cur.pos as int) {
                        Ok(rest) => {
                            assert(done + (seq![t@] + rest) =~= (done + seq![t@]) + rest);
                        },
                        Err(_) => {},
                    }
                }
            },
            Err(e) => {
                return Err(e);
            },
        }
    }
}

/// Tokenizes a source text.
pub fn tokenize(source: &str) -> (res: Result<Vec<Token>, LuckLexError>)
    requires
        source@.len() < usize::MAX,
    ensures
        match res {
            Ok(toks) => lex_spec(source@) == Ok::<Seq<TokenModel>, LexErrorModel>(token_views(toks@)),
            Err(e) => lex_spec(source@) == Err::<Seq<TokenModel>, LexErrorModel>(e@),
        },
{
    let chars = to_chars(source);
    tokenize_chars(&chars)
}

/// A successful token stream of a source ends with `Eof`.
pub proof fn lemma_lex_ends_with_eof(s: Seq<char>, pos: int)
    requires
        0 <= pos <= s.len(),
        lex_from(s, pos) is Ok,
    ensures
        lex_from(s, pos)->Ok_0.len() > 0,
        lex_from(s, pos)->Ok_0.last().ttype == TokenType::Eof,
    decreases s.len() - pos,
{
    let p = skip_trivia(s, pos, false);
    lemma_skip_trivia_bounds(s, pos, false);
    if p < s.len() {
        lemma_scan_advances(s, p);
        let r = scan_spec(s, p)->Ok_0;
        lemma_lex_ends_with_eof(s, r.1);
        let rest = lex_from(s, r.1)->Ok_0;
        assert((seq![r.0] + rest).last() == rest.last());
    }
}

} // verus!
