//! The lexer: turns source text into tokens.
use vstd::prelude::*;
use crate::errors::LexerError;
use crate::text::{
    is_alphanumeric, is_whitespace, push_char, string_from_chars, unicode_alphanumeric,
    unicode_whitespace,
};

verus! {

/// A token together with the line on which the lexer stood when it finished reading it.
#[derive(Debug, PartialEq, Clone)]
pub struct Token {
    pub kind: TokenKind,
    pub(crate) line: u32,
}

/// The kinds of token the lexer produces.
#[derive(PartialEq, Debug, Clone)]
pub enum TokenKind {
    Export,
    Import,
    From,
    Default,
    As,
    Type,
    Star,
    LeftBrace,
    RightBrace,
    Comma,
    Eos,
    String(String),
    Identifier(String),
    Function,
    Const,
    Class,
    Let,
    Require,
    LeftParen,
    RightParen,
    Equals,
    SemiColon,
}

/// What a `TokenKind` stands for, with the text of strings and identifiers as sequences.
pub enum Lexeme {
    Export,
    Import,
    From,
    Default,
    As,
    Type,
    Star,
    LeftBrace,
    RightBrace,
    Comma,
    Eos,
    Str(Seq<char>),
    Ident(Seq<char>),
    Function,
    Const,
    Class,
    Let,
    Require,
    LeftParen,
    RightParen,
    Equals,
    SemiColon,
}

impl View for TokenKind {
    type V = Lexeme;

    open spec fn view(&self) -> Lexeme {
        match self {
            TokenKind::Export => Lexeme::Export,
            TokenKind::Import => Lexeme::Import,
            TokenKind::From => Lexeme::From,
            TokenKind::Default => Lexeme::Default,
            TokenKind::As => Lexeme::As,
            TokenKind::Type => Lexeme::Type,
            TokenKind::Star => Lexeme::Star,
            TokenKind::LeftBrace => Lexeme::LeftBrace,
            TokenKind::RightBrace => Lexeme::RightBrace,
            TokenKind::Comma => Lexeme::Comma,
            TokenKind::Eos => Lexeme::Eos,
            TokenKind::String(s) => Lexeme::Str(s@),
            TokenKind::Identifier(s) => Lexeme::Ident(s@),
            TokenKind::Function => Lexeme::Function,
            TokenKind::Const => Lexeme::Const,
            TokenKind::Class => Lexeme::Class,
            TokenKind::Let => Lexeme::Let,
            TokenKind::Require => Lexeme::Require,
            TokenKind::LeftParen => Lexeme::LeftParen,
            TokenKind::RightParen => Lexeme::RightParen,
            TokenKind::Equals => Lexeme::Equals,
            TokenKind::SemiColon => Lexeme::SemiColon,
        }
    }
}

/// A token as a value: its lexeme and its line.
pub struct TokenModel {
    pub kind: Lexeme,
    pub line: nat,
}

impl View for Token {
    type V = TokenModel;

    closed spec fn view(&self) -> TokenModel {
        TokenModel { kind: self.kind@, line: self.line as nat }
    }
}

/// The lexeme a token's view holds is the view of its kind.
pub(crate) proof fn lemma_token_kind(t: Token)
    ensures
        t@.kind == t.kind@,
{
}

/// The views of a sequence of tokens.
pub open spec fn tokens_view(ts: Seq<Token>) -> Seq<TokenModel> {
    ts.map_values(|t: Token| t@)
}

impl Token {
    /// A token of kind `kind` read on line `line`.
    pub fn new(kind: TokenKind, line: u32) -> (t: Self)
        ensures
            t@ == (TokenModel { kind: kind@, line: line as nat }),
    {
        Token { kind, line }
    }

    /// The kind of this token.
    pub fn kind(&self) -> (k: &TokenKind)
        ensures
            k@ == self@.kind,
    {
        &self.kind
    }

    /// The line on which this token was read.
    pub fn line(&self) -> (l: u32)
        ensures
            l as nat == self@.line,
    {
        self.line
    }
}

// ---------------------------------------------------------------------------
// The lexical rules.
// ---------------------------------------------------------------------------

/// The number of newline characters in `s`.
pub open spec fn newlines(s: Seq<char>) -> nat
    decreases s.len(),
{
    if s.len() == 0 {
        0
    } else {
        newlines(s.drop_last()) + if s.last() == '\n' { 1nat } else { 0nat }
    }
}

/// The line on which position `p` of `src` lies, counting from 1.
pub open spec fn line_at(src: Seq<char>, p: int) -> nat {
    1 + newlines(src.take(p))
}

/// Whether every line number of `src` fits in the lexer's `u32` line counter.
pub open spec fn lines_fit(src: Seq<char>) -> bool {
    line_at(src, src.len() as int) <= u32::MAX
}

/// Characters that start an identifier or a keyword.
pub open spec fn starts_word(c: char) -> bool {
    ('a' <= c && c <= 'z') || ('A' <= c && c <= 'Z') || c == '_'
}

/// Characters that continue an identifier or a keyword.
pub open spec fn continues_word(c: char) -> bool {
    unicode_alphanumeric(c) || c == '_'
}

/// Characters that open (and close) a string literal.
pub open spec fn is_quote(c: char) -> bool {
    c == '"' || c == '\''
}

/// The lexeme of a one-character token, if `c` is one.
pub open spec fn punctuation(c: char) -> Option<Lexeme> {
    if c == '{' {
        Some(Lexeme::LeftBrace)
    } else if c == '}' {
        Some(Lexeme::RightBrace)
    } else if c == '(' {
        Some(Lexeme::LeftParen)
    } else if c == ')' {
        Some(Lexeme::RightParen)
    } else if c == '*' {
        Some(Lexeme::Star)
    } else if c == ',' {
        Some(Lexeme::Comma)
    } else if c == ';' {
        Some(Lexeme::SemiColon)
    } else if c == '=' {
        Some(Lexeme::Equals)
    } else {
        None
    }
}

/// The lexeme of the word `w`: a keyword if it is one, an identifier otherwise.
pub open spec fn word_lexeme(w: Seq<char>) -> Lexeme {
    if w == seq!['a', 's'] {
        Lexeme::As
    } else if w == seq!['i', 'm', 'p', 'o', 'r', 't'] {
        Lexeme::Import
    } else if w == seq!['e', 'x', 'p', 'o', 'r', 't'] {
        Lexeme::Export
    } else if w == seq!['f', 'r', 'o', 'm'] {
        Lexeme::From
    } else if w == seq!['d', 'e', 'f', 'a', 'u', 'l', 't'] {
        Lexeme::Default
    } else if w == seq!['t', 'y', 'p', 'e'] {
        Lexeme::Type
    } else if w == seq!['f', 'u', 'n', 'c', 't', 'i', 'o', 'n'] {
        Lexeme::Function
    } else if w == seq!['c', 'o', 'n', 's', 't'] {
        Lexeme::Const
    } else if w == seq!['c', 'l', 'a', 's', 's'] {
        Lexeme::Class
    } else if w == seq!['l', 'e', 't'] {
        Lexeme::Let
    } else if w == seq!['r', 'e', 'q', 'u', 'i', 'r', 'e'] {
        Lexeme::Require
    } else {
        Lexeme::Ident(w)
    }
}

/// The first position at or after `p` that holds `q`, or the end of `src`.
pub open spec fn quote_end(src: Seq<char>, p: int, q: char) -> int
    decreases src.len() - p,
{
    if 0 <= p < src.len() && src[p] != q {
        quote_end(src, p + 1, q)
    } else {
        p
    }
}

/// The first position at or after `p` whose character does not continue a word, or the end.
pub open spec fn word_end(src: Seq<char>, p: int) -> int
    decreases src.len() - p,
{
    if 0 <= p < src.len() && continues_word(src[p]) {
        word_end(src, p + 1)
    } else {
        p
    }
}

/// The outcome of reading one token.
pub enum Scan {
    /// A token, and the position after it.
    Read(TokenModel, int),
    /// The error that stopped the lexer.
    Fail(LexerError),
}

/// Reads one token of `src` from position `pos`: whitespace and characters that start no
/// token are passed over; a string literal runs to the next matching quote, and fails
/// at the end of the input when there is none; a word runs while characters continue it.
pub open spec fn scan(src: Seq<char>, pos: int) -> Scan
    decreases src.len() - pos,
{
    if pos < 0 || pos >= src.len() {
        Scan::Read(TokenModel { kind: Lexeme::Eos, line: line_at(src, src.len() as int) }, src.len() as int)
    } else {
        let c = src[pos];
        if unicode_whitespace(c) {
            scan(src, pos + 1)
        } else if punctuation(c) is Some {
            Scan::Read(TokenModel { kind: punctuation(c)->0, line: line_at(src, pos + 1) }, pos + 1)
        } else if is_quote(c) {
            let e = quote_end(src, pos + 1, c);
            if e >= src.len() {
                Scan::Fail(LexerError::UnsupportedToken('\0', line_at(src, src.len() as int) as usize))
            } else {
                Scan::Read(
                    TokenModel { kind: Lexeme::Str(src.subrange(pos + 1, e)), line: line_at(src, e + 1) },
                    e + 1,
                )
            }
        } else if starts_word(c) {
            let e = word_end(src, pos + 1);
            Scan::Read(TokenModel { kind: word_lexeme(src.subrange(pos, e)), line: line_at(src, e) }, e)
        } else {
            scan(src, pos + 1)
        }
    }
}

/// The tokens of `src` from position `pos` up to and including the end-of-stream token,
/// or the first error.
pub open spec fn lex_from(src: Seq<char>, pos: int) -> Result<Seq<TokenModel>, LexerError>
    decreases src.len() - pos,
{
    match scan(src, pos) {
        Scan::Fail(e) => Err(e),
        Scan::Read(t, next) => {
            if t.kind is Eos {
                Ok(seq![t])
            } else {
                proof {
                    lemma_scan_advances(src, pos);
                }
                match lex_from(src, next) {
                    Ok(rest) => Ok(seq![t] + rest),
                    Err(e) => Err(e),
                }
            }
        },
    }
}

/// The tokens of the whole of `src`.
pub open spec fn lex(src: Seq<char>) -> Result<Seq<TokenModel>, LexerError> {
    lex_from(src, 0)
}

pub proof fn lemma_quote_end_bounds(src: Seq<char>, p: int, q: char)
    requires
        0 <= p,
    ensures
        p <= quote_end(src, p, q),
        p <= src.len() ==> quote_end(src, p, q) <= src.len(),
        quote_end(src, p, q) < src.len() ==> src[quote_end(src, p, q)] == q,
    decreases src.len() - p,
{
    if 0 <= p < src.len() && src[p] != q {
        lemma_quote_end_bounds(src, p + 1, q);
    }
}

pub proof fn lemma_word_end_bounds(src: Seq<char>, p: int)
    requires
        0 <= p,
    ensures
        p <= word_end(src, p),
        p <= src.len() ==> word_end(src, p) <= src.len(),
    decreases src.len() - p,
{
    if 0 <= p < src.len() && continues_word(src[p]) {
        lemma_word_end_bounds(src, p + 1);
    }
}

/// A token other than the end of stream lies after the position it was read from,
/// and within the input.
pub proof fn lemma_scan_advances(src: Seq<char>, pos: int)
    ensures
        scan(src, pos) matches Scan::Read(t, next) ==> {
            &&& next <= src.len()
            &&& (!(t.kind is Eos) ==> pos < next)
            &&& (0 <= pos <= src.len() ==> pos <= next)
            &&& (t.kind is Eos ==> next == src.len())
        },
    decreases src.len() - pos,
{
    if pos < 0 || pos >= src.len() {
    } else {
        let c = src[pos];
        if unicode_whitespace(c) {
            lemma_scan_advances(src, pos + 1);
        } else if punctuation(c) is Some {
        } else if is_quote(c) {
            lemma_quote_end_bounds(src, pos + 1, c);
        } else if starts_word(c) {
            lemma_word_end_bounds(src, pos + 1);
        } else {
            lemma_scan_advances(src, pos + 1);
        }
    }
}

/// Extending a range by one position appends that position's element.
pub proof fn lemma_subrange_push<A>(s: Seq<A>, a: int, b: int)
    requires
        0 <= a <= b < s.len(),
    ensures
        s.subrange(a, b + 1) == s.subrange(a, b).push(s[b]),
{
    assert(s.subrange(a, b + 1) =~= s.subrange(a, b).push(s[b]));
}

/// Line numbers only grow along the input.
pub proof fn lemma_line_at_monotone(src: Seq<char>, i: int, j: int)
    requires
        0 <= i <= j <= src.len(),
    ensures
        line_at(src, i) <= line_at(src, j),
    decreases j - i,
{
    if i < j {
        lemma_line_at_step(src, j - 1);
        lemma_line_at_monotone(src, i, j - 1);
    }
}

/// Moving over one character adds one line exactly when it is a newline.
pub proof fn lemma_line_at_step(src: Seq<char>, i: int)
    requires
        0 <= i < src.len(),
    ensures
        line_at(src, i + 1) == line_at(src, i) + if src[i] == '\n' { 1nat } else { 0nat },
{
    assert(src.take(i + 1).drop_last() =~= src.take(i));
}

/// Each token read carries the line of the position right after it.
pub proof fn lemma_scan_line(src: Seq<char>, pos: int)
    requires
        0 <= pos,
    ensures
        scan(src, pos) matches Scan::Read(t, next) ==> t.line == line_at(src, next),
        scan(src, pos) matches Scan::Fail(e) ==> e == LexerError::UnsupportedToken(
            '\0',
            line_at(src, src.len() as int) as usize,
        ),
    decreases src.len() - pos,
{
    if pos >= src.len() {
    } else {
        let c = src[pos];
        if unicode_whitespace(c) {
            lemma_scan_line(src, pos + 1);
        } else if punctuation(c) is Some {
        } else if is_quote(c) {
        } else if starts_word(c) {
        } else {
            lemma_scan_line(src, pos + 1);
        }
    }
}

/// Without quote characters ahead, reading a token never fails.
pub proof fn lemma_scan_reads_without_quotes(src: Seq<char>, pos: int)
    requires
        0 <= pos,
        forall|i: int| pos <= i < src.len() ==> !is_quote(#[trigger] src[i]),
    ensures
        scan(src, pos) is Read,
    decreases src.len() - pos,
{
    if pos >= src.len() {
    } else {
        let c = src[pos];
        if unicode_whitespace(c) {
            lemma_scan_reads_without_quotes(src, pos + 1);
        } else if punctuation(c) is Some {
        } else if is_quote(c) {
        } else if starts_word(c) {
        } else {
            lemma_scan_reads_without_quotes(src, pos + 1);
        }
    }
}

proof fn lemma_lex_from_shape(src: Seq<char>, pos: int)
    requires
        0 <= pos <= src.len(),
    ensures
        lex_from(src, pos) matches Ok(ts) ==> {
            &&& ts.len() > 0
            &&& ts.last().kind is Eos
            &&& forall|i: int| 0 <= i < ts.len() - 1 ==> !(#[trigger] ts[i].kind is Eos)
            &&& forall|i: int, j: int| 0 <= i <= j < ts.len() ==> line_at(src, pos) <= #[trigger] ts[i].line <= #[trigger] ts[j].line
            &&& ts.last().line == line_at(src, src.len() as int)
        },
        lex_from(src, pos) matches Err(e) ==> e == LexerError::UnsupportedToken(
            '\0',
            line_at(src, src.len() as int) as usize,
        ),
        (forall|i: int| pos <= i < src.len() ==> !is_quote(#[trigger] src[i])) ==> lex_from(src, pos) is Ok,
    decreases src.len() - pos,
{
    lemma_scan_advances(src, pos);
    lemma_scan_line(src, pos);
    if forall|i: int| pos <= i < src.len() ==> !is_quote(#[trigger] src[i]) {
        lemma_scan_reads_without_quotes(src, pos);
    }
    match scan(src, pos) {
        Scan::Fail(e) => {},
        Scan::Read(t, next) => {
            lemma_line_at_monotone(src, pos, next);
            if !(t.kind is Eos) {
                lemma_lex_from_shape(src, next);
                if let Ok(rest) = lex_from(src, next) {
                    let ts = seq![t] + rest;
                    assert(ts.last() == rest.last());
                    assert forall|i: int| 0 <= i < ts.len() - 1 implies !(#[trigger] ts[i].kind is Eos) by {
                        if i > 0 {
                            assert(ts[i] == rest[i - 1]);
                        }
                    }
                    assert forall|i: int, j: int| 0 <= i <= j < ts.len() implies line_at(src, pos) <= #[trigger] ts[i].line <= #[trigger] ts[j].line by {
                        if i > 0 {
                            assert(ts[i] == rest[i - 1]);
                        }
                        if j > 0 {
                            assert(ts[j] == rest[j - 1]);
                            assert(rest[0].line <= rest[j - 1].line);
                        }
                    }
                }
            }
        },
    }
}

/// The tokens of an input end with the end-of-stream token, which occurs nowhere else.
pub proof fn law_tokens_end_with_single_eos(src: Seq<char>)
    ensures
        lex(src) matches Ok(ts) ==> {
            &&& ts.len() > 0
            &&& ts.last().kind is Eos
            &&& forall|i: int| 0 <= i < ts.len() - 1 ==> !(#[trigger] ts[i].kind is Eos)
        },
{
    lemma_lex_from_shape(src, 0);
}

/// Token lines start at 1, never decrease along the token stream, and the end-of-stream
/// token stands on the last line of the input.
pub proof fn law_token_lines_ordered(src: Seq<char>)
    ensures
        lex(src) matches Ok(ts) ==> {
            &&& forall|i: int, j: int| 0 <= i <= j < ts.len() ==> 1 <= #[trigger] ts[i].line <= #[trigger] ts[j].line
            &&& ts.last().line == line_at(src, src.len() as int)
        },
{
    lemma_lex_from_shape(src, 0);
    assert(src.take(0) =~= Seq::<char>::empty());
}

/// The only error is an unterminated string literal, reported with the character `'\0'` and
/// the last line of the input; an input without quote characters is always tokenized.
pub proof fn law_lex_error_is_open_string(src: Seq<char>)
    ensures
        lex(src) matches Err(e) ==> e == LexerError::UnsupportedToken(
            '\0',
            line_at(src, src.len() as int) as usize,
        ),
        (forall|i: int| 0 <= i < src.len() ==> !is_quote(#[trigger] src[i])) ==> lex(src) is Ok,
{
    lemma_lex_from_shape(src, 0);
}

/// ASCII letters, digits and the underscore.
pub open spec fn ascii_word_char(c: char) -> bool {
    ('a' <= c && c <= 'z') || ('A' <= c && c <= 'Z') || ('0' <= c && c <= '9') || c == '_'
}

proof fn lemma_word_runs_to_end(w: Seq<char>, i: int)
    requires
        1 <= i <= w.len(),
        forall|k: int| 1 <= k < w.len() ==> ascii_word_char(#[trigger] w[k]),
    ensures
        word_end(w, i) == w.len(),
    decreases w.len() - i,
{
    if i < w.len() {
        assert(ascii_word_char(w[i]));
        lemma_word_runs_to_end(w, i + 1);
    }
}

proof fn lemma_no_newlines(w: Seq<char>)
    requires
        forall|k: int| 0 <= k < w.len() ==> #[trigger] w[k] != '\n',
    ensures
        newlines(w) == 0,
    decreases w.len(),
{
    if w.len() > 0 {
        lemma_no_newlines(w.drop_last());
    }
}

/// A word is read whole: a text that starts with an ASCII letter or an underscore and goes
/// on with ASCII letters, digits and underscores is a single token, a keyword or an
/// identifier of the whole text, followed by the end of stream, both on line 1. A word with
/// an underscore in it is no keyword, so it is an identifier.
pub proof fn law_word_is_one_token(w: Seq<char>)
    requires
        w.len() > 0,
        ('a' <= w[0] && w[0] <= 'z') || ('A' <= w[0] && w[0] <= 'Z') || w[0] == '_',
        forall|k: int| 1 <= k < w.len() ==> ascii_word_char(#[trigger] w[k]),
    ensures
        lex(w) == Ok::<Seq<TokenModel>, LexerError>(
            seq![TokenModel { kind: word_lexeme(w), line: 1 }, TokenModel { kind: Lexeme::Eos, line: 1 }],
        ),
        w.contains('_') ==> lex(w) == Ok::<Seq<TokenModel>, LexerError>(
            seq![TokenModel { kind: Lexeme::Ident(w), line: 1 }, TokenModel { kind: Lexeme::Eos, line: 1 }],
        ),
{
    lemma_word_runs_to_end(w, 1);
    assert forall|k: int| 0 <= k < w.len() implies #[trigger] w[k] != '\n' by {
        if k > 0 {
            assert(ascii_word_char(w[k]));
        }
    }
    lemma_no_newlines(w);
    assert(w.take(w.len() as int) =~= w);
    assert(w.subrange(0, w.len() as int) =~= w);
    assert(w.take(0) =~= Seq::<char>::empty());
    assert(scan(w, 0) == Scan::Read(TokenModel { kind: word_lexeme(w), line: 1 }, w.len() as int));
    assert(scan(w, w.len() as int) == Scan::Read(TokenModel { kind: Lexeme::Eos, line: 1 }, w.len() as int));
    assert(!(word_lexeme(w) is Eos));
    let eos = TokenModel { kind: Lexeme::Eos, line: 1 };
    let word = TokenModel { kind: word_lexeme(w), line: 1 };
    assert(lex_from(w, w.len() as int) == Ok::<Seq<TokenModel>, LexerError>(seq![eos]));
    assert(seq![word] + seq![eos] =~= seq![word, eos]);
    assert(lex_from(w, 0) == Ok::<Seq<TokenModel>, LexerError>(seq![word, eos]));
    if w.contains('_') {
        let u = choose|k: int| 0 <= k < w.len() && w[k] == '_';
        assert(w[u] == '_');
        assert(word_lexeme(w) == Lexeme::Ident(w));
    }
}

/// The tokens `ts` with `off` lines added to each.
pub open spec fn shift_lines(ts: Seq<TokenModel>, off: nat) -> Seq<TokenModel> {
    ts.map_values(|t: TokenModel| TokenModel { kind: t.kind, line: t.line + off })
}

proof fn lemma_newlines_concat(a: Seq<char>, b: Seq<char>)
    ensures
        newlines(a + b) == newlines(a) + newlines(b),
    decreases b.len(),
{
    if b.len() > 0 {
        assert((a + b).drop_last() =~= a + b.drop_last());
        lemma_newlines_concat(a, b.drop_last());
    } else {
        assert(a + b =~= a);
    }
}

/// Lines further on in a text are lines of its suffix, shifted by the newlines before it.
proof fn lemma_line_at_suffix(s: Seq<char>, k: int, q: int)
    requires
        0 <= k <= s.len(),
        0 <= q <= s.len() - k,
    ensures
        line_at(s, k + q) == newlines(s.take(k)) + line_at(s.skip(k), q),
{
    assert(s.take(k + q) =~= s.take(k) + s.skip(k).take(q));
    lemma_newlines_concat(s.take(k), s.skip(k).take(q));
}

proof fn lemma_quote_end_suffix(s: Seq<char>, k: int, q: int, c: char)
    requires
        0 <= k <= s.len(),
        0 <= q,
    ensures
        quote_end(s, k + q, c) == k + quote_end(s.skip(k), q, c),
    decreases s.len() - k - q,
{
    if q < s.len() - k {
        assert(s.skip(k)[q] == s[k + q]);
        if s[k + q] != c {
            lemma_quote_end_suffix(s, k, q + 1, c);
        }
    }
}

proof fn lemma_word_end_suffix(s: Seq<char>, k: int, q: int)
    requires
        0 <= k <= s.len(),
        0 <= q,
    ensures
        word_end(s, k + q) == k + word_end(s.skip(k), q),
    decreases s.len() - k - q,
{
    if q < s.len() - k {
        assert(s.skip(k)[q] == s[k + q]);
        if continues_word(s[k + q]) {
            lemma_word_end_suffix(s, k, q + 1);
        }
    }
}

/// Reading a token in a text from position `k + q` reads the token of its suffix from `k`
/// at position `q`, its line shifted by the newlines before `k`.
proof fn lemma_scan_suffix(s: Seq<char>, k: int, q: int)
    requires
        0 <= k <= s.len(),
        0 <= q,
    ensures
        scan(s.skip(k), q) matches Scan::Read(t, next) ==> scan(s, k + q) == Scan::Read(
            TokenModel { kind: t.kind, line: t.line + newlines(s.take(k)) },
            k + next,
        ),
    decreases s.len() - k - q,
{
    let t = s.skip(k);
    let off = newlines(s.take(k));
    lemma_line_at_suffix(s, k, t.len() as int);
    assert(k + t.len() == s.len());
    if q < t.len() {
        let c = t[q];
        assert(s[k + q] == c);
        if unicode_whitespace(c) {
            lemma_scan_suffix(s, k, q + 1);
        } else if punctuation(c) is Some {
            lemma_line_at_suffix(s, k, q + 1);
        } else if is_quote(c) {
            lemma_quote_end_suffix(s, k, q + 1, c);
            lemma_quote_end_bounds(t, q + 1, c);
            let e = quote_end(t, q + 1, c);
            if e < t.len() {
                lemma_line_at_suffix(s, k, e + 1);
                assert(s.subrange(k + q + 1, k + e) =~= t.subrange(q + 1, e));
            }
        } else if starts_word(c) {
            lemma_word_end_suffix(s, k, q + 1);
            lemma_word_end_bounds(t, q + 1);
            let e = word_end(t, q + 1);
            lemma_line_at_suffix(s, k, e);
            assert(s.subrange(k + q, k + e) =~= t.subrange(q, e));
        } else {
            lemma_scan_suffix(s, k, q + 1);
        }
    }
}

/// Lexing a text from position `k + q` gives the tokens of its suffix from `k`, lexed from
/// `q`, with their lines shifted by the newlines before `k`.
proof fn lemma_lex_suffix(s: Seq<char>, k: int, q: int)
    requires
        0 <= k <= s.len(),
        0 <= q <= s.len() - k,
    ensures
        lex_from(s.skip(k), q) matches Ok(ts) ==> lex_from(s, k + q) == Ok::<Seq<TokenModel>, LexerError>(
            shift_lines(ts, newlines(s.take(k))),
        ),
    decreases s.len() - k - q,
{
    let t = s.skip(k);
    lemma_scan_suffix(s, k, q);
    lemma_scan_advances(t, q);
    if let Scan::Read(tok, next) = scan(t, q) {
        if tok.kind is Eos {
            if let Ok(ts) = lex_from(t, q) {
                assert(shift_lines(ts, newlines(s.take(k))) =~= seq![TokenModel { kind: tok.kind, line: tok.line + newlines(s.take(k)) }]);
            }
        } else {
            lemma_lex_suffix(s, k, next);
            if let Ok(ts) = lex_from(t, q) {
                let rest = lex_from(t, next)->Ok_0;
                let shifted = TokenModel { kind: tok.kind, line: tok.line + newlines(s.take(k)) };
                assert(shift_lines(ts, newlines(s.take(k))) =~= seq![shifted] + shift_lines(rest, newlines(s.take(k))));
            }
        }
    }
}

proof fn lemma_quote_end_prefix(s: Seq<char>, n: int, i: int, c: char)
    requires
        0 <= i,
        0 <= n <= s.len(),
        quote_end(s.take(n), i, c) < n,
    ensures
        quote_end(s, i, c) == quote_end(s.take(n), i, c),
    decreases n - i,
{
    let a = s.take(n);
    assert(a.len() == n);
    if i < n {
        assert(a[i] == s[i]);
        if s[i] != c {
            assert(quote_end(a, i, c) == quote_end(a, i + 1, c));
            lemma_quote_end_prefix(s, n, i + 1, c);
            assert(quote_end(s, i, c) == quote_end(s, i + 1, c));
        } else {
            assert(quote_end(a, i, c) == i);
            assert(quote_end(s, i, c) == i);
        }
    } else {
        assert(quote_end(a, i, c) == i);
    }
}

proof fn lemma_word_end_prefix(s: Seq<char>, n: int, i: int)
    requires
        0 <= i <= n < s.len(),
        !continues_word(s[n]),
    ensures
        word_end(s, i) == word_end(s.take(n), i),
    decreases n - i,
{
    if i < n && continues_word(s.take(n)[i]) {
        lemma_word_end_prefix(s, n, i + 1);
    }
}

/// A token of a prefix that a separator ends is read the same in the whole text; where the
/// prefix has nothing more than its end, the whole text goes on after the separator.
proof fn lemma_scan_prefix(s: Seq<char>, n: int, p: int)
    requires
        0 <= p <= n < s.len(),
        unicode_whitespace(s[n]),
        !continues_word(s[n]),
    ensures
        scan(s.take(n), p) matches Scan::Read(t, next) ==> if t.kind is Eos {
            scan(s, p) == scan(s, n + 1)
        } else {
            scan(s, p) == scan(s.take(n), p)
        },
    decreases n - p,
{
    let a = s.take(n);
    if p < n {
        let c = a[p];
        assert(s[p] == c);
        if unicode_whitespace(c) {
            lemma_scan_prefix(s, n, p + 1);
        } else if punctuation(c) is Some {
            assert(s.take(p + 1) =~= a.take(p + 1));
        } else if is_quote(c) {
            let e = quote_end(a, p + 1, c);
            if e < n {
                lemma_quote_end_prefix(s, n, p + 1, c);
                lemma_quote_end_bounds(a, p + 1, c);
                assert(s.take(e + 1) =~= a.take(e + 1));
                assert(s.subrange(p + 1, e) =~= a.subrange(p + 1, e));
            }
        } else if starts_word(c) {
            lemma_word_end_prefix(s, n, p + 1);
            lemma_word_end_bounds(a, p + 1);
            let e = word_end(a, p + 1);
            assert(s.take(e) =~= a.take(e));
            assert(s.subrange(p, e) =~= a.subrange(p, e));
        } else {
            lemma_scan_prefix(s, n, p + 1);
        }
    }
}

/// Lexing a text from a position within a prefix that a separator ends gives the prefix's
/// tokens but its end-of-stream token, then the tokens after the separator.
proof fn lemma_lex_prefix(s: Seq<char>, n: int, p: int)
    requires
        0 <= p <= n < s.len(),
        unicode_whitespace(s[n]),
        !continues_word(s[n]),
    ensures
        lex_from(s.take(n), p) matches Ok(ts) ==> lex_from(s, p) == match lex_from(s, n + 1) {
            Ok(rest) => Ok(ts.drop_last() + rest),
            Err(e) => Err::<Seq<TokenModel>, LexerError>(e),
        },
    decreases n - p,
{
    let a = s.take(n);
    lemma_scan_prefix(s, n, p);
    lemma_scan_advances(a, p);
    lemma_scan_advances(s, p);
    if let Scan::Read(t, next) = scan(a, p) {
        if t.kind is Eos {
            if let Ok(rest) = lex_from(s, n + 1) {
                assert(seq![t].drop_last() + rest =~= rest);
            }
        } else {
            lemma_lex_prefix(s, n, next);
            lemma_lex_from_shape(a, next);
            if let Ok(ts) = lex_from(a, p) {
                let tail = lex_from(a, next)->Ok_0;
                if let Ok(rest) = lex_from(s, n + 1) {
                    assert(ts.drop_last() + rest =~= seq![t] + (tail.drop_last() + rest));
                }
            }
        }
    }
}

/// Joining two texts with a space joins their tokens: the tokens of the first but its
/// end-of-stream token, then those of the second with the newlines of the first added to
/// their lines.
pub proof fn law_joined_texts(s1: Seq<char>, s2: Seq<char>)
    ensures
        lex(s1) matches Ok(a) ==> (lex(s2) matches Ok(b) ==> lex(s1 + seq![' '] + s2)
            == Ok::<Seq<TokenModel>, LexerError>(a.drop_last() + shift_lines(b, newlines(s1)))),
{
    let s = s1 + seq![' '] + s2;
    let n = s1.len() as int;
    assert(s.take(n) =~= s1);
    assert(s.skip(n + 1) =~= s2);
    assert(s[n] == ' ');
    assert(s.take(n + 1) =~= s1 + seq![' ']);
    lemma_newlines_concat(s1, seq![' ']);
    assert(seq![' '].drop_last() =~= Seq::<char>::empty());
    assert(newlines(seq![' ']) == 0) by {
        reveal_with_fuel(newlines, 2);
    }
    assert(newlines(s.take(n + 1)) == newlines(s1));
    lemma_lex_prefix(s, n, 0);
    lemma_lex_suffix(s, n + 1, 0);
    if let Ok(a) = lex(s1) {
        if let Ok(b) = lex(s2) {
            assert(lex_from(s.skip(n + 1), 0) == lex(s2));
            assert(lex_from(s, n + 1) == Ok::<Seq<TokenModel>, LexerError>(shift_lines(b, newlines(s1))));
            assert(lex_from(s, 0) == Ok::<Seq<TokenModel>, LexerError>(a.drop_last() + shift_lines(b, newlines(s1))));
        }
    }
}

// ---------------------------------------------------------------------------
// The lexer.
// ---------------------------------------------------------------------------

/// A lexer over a sequence of characters: the characters, the current line and the
/// current position.
#[derive(Debug)]
pub struct Lexer {
    source: Vec<char>,
    line: u32,
    current: usize,
}

impl Lexer {
    /// The characters the lexer reads.
    pub closed spec fn text(&self) -> Seq<char> {
        self.source@
    }

    /// The position of the next character to read.
    pub closed spec fn pos(&self) -> int {
        self.current as int
    }

    /// The line counter.
    pub closed spec fn line(&self) -> nat {
        self.line as nat
    }

    /// The lexer's state is consistent: the position lies within the text, the line
    /// counter holds the line of that position, and no line number of the text
    /// overflows the counter.
    pub closed spec fn wf(&self) -> bool {
        &&& self.current <= self.source@.len()
        &&& self.line as nat == line_at(self.source@, self.current as int)
        &&& lines_fit(self.source@)
    }

    /// What a consistent state says: the position lies within the text, the line counter
    /// holds the line of that position, and every line number of the text fits the counter.
    pub proof fn lemma_consistent(&self)
        requires
            self.wf(),
        ensures
            0 <= self.pos() <= self.text().len(),
            self.line() == line_at(self.text(), self.pos()),
            lines_fit(self.text()),
    {
    }

    /// A lexer at the start of `source`, on line 1.
    pub fn new(source: Vec<char>) -> (l: Self)
        ensures
            l.text() == source@,
            l.pos() == 0,
            l.line() == 1,
            l.wf() == lines_fit(source@),
    {
        proof {
            assert(source@.take(0) =~= Seq::<char>::empty());
        }
        Lexer { source, line: 1, current: 0 }
    }

    /// Whether every line number of this lexer's text fits in its line counter, which
    /// `tokenize` needs.
    pub fn lines_fit(&self) -> (b: bool)
        ensures
            b == lines_fit(self.text()),
    {
        let mut count: u32 = 1;
        let mut i: usize = 0;
        proof {
            assert(self.source@.take(0) =~= Seq::<char>::empty());
        }
        while i < self.source.len()
            invariant
                i <= self.source@.len(),
                count as nat == line_at(self.source@, i as int),
            decreases self.source.len() - i,
        {
            proof {
                lemma_line_at_step(self.source@, i as int);
                lemma_line_at_monotone(self.source@, i + 1, self.source@.len() as int);
            }
            if self.source[i] == '\n' {
                if count == u32::MAX {
                    return false;
                }
                count = count + 1;
            }
            i = i + 1;
        }
        proof {
            assert(self.source@.take(self.source@.len() as int) =~= self.source@);
        }
        true
    }

    /// Moves over whitespace.
    fn white_space(&mut self)
        requires
            old(self).wf(),
        ensures
            final(self).wf(),
            final(self).text() == old(self).text(),
            final(self).pos() >= old(self).pos(),
            scan(final(self).text(), final(self).pos()) == scan(old(self).text(), old(self).pos()),
            final(self).pos() < final(self).text().len() ==> !unicode_whitespace(
                final(self).text()[final(self).pos()],
            ),
            forall|i: int| old(self).pos() <= i < final(self).pos() ==> unicode_whitespace(#[trigger] final(self).text()[i]),
    {
        while self.current < self.source.len() && is_whitespace(self.peek())
            invariant
                self.wf(),
                self.source@ == old(self).source@,
                self.current >= old(self).current,
                forall|i: int| old(self).current <= i < self.current ==> unicode_whitespace(#[trigger] self.source@[i]),
                scan(self.source@, self.current as int) == scan(old(self).source@, old(self).current as int),
            decreases self.source@.len() - self.current,
        {
            self.advance();
        }
    }

    /// Reads the current character and moves past it; at the end, gives `'\0'` and stays.
    fn advance(&mut self) -> (c: char)
        requires
            old(self).wf(),
        ensures
            final(self).wf(),
            final(self).text() == old(self).text(),
            old(self).pos() < old(self).text().len() ==> {
                &&& c == old(self).text()[old(self).pos()]
                &&& final(self).pos() == old(self).pos() + 1
            },
            old(self).pos() >= old(self).text().len() ==> {
                &&& c == '\0'
                &&& final(self).pos() == old(self).pos()
            },
    {
        if self.current < self.source.len() {
            let c = self.source[self.current];
            proof {
                lemma_line_at_step(self.source@, self.current as int);
                lemma_line_at_monotone(self.source@, self.current + 1, self.source@.len() as int);
            }
            if c == '\n' {
                self.line = self.line + 1;
            }
            self.current = self.current + 1;
            c
        } else {
            '\0'
        }
    }

    /// The current character, or `'\0'` at the end.
    fn peek(&self) -> (c: char)
        requires
            self.wf(),
        ensures
            self.pos() < self.text().len() ==> c == self.text()[self.pos()],
            self.pos() >= self.text().len() ==> c == '\0',
    {
        if self.current < self.source.len() {
            self.source[self.current]
        } else {
            '\0'
        }
    }

    /// Reads the next token.
    fn next_token(&mut self) -> (r: Result<Token, LexerError>)
        requires
            old(self).wf(),
        ensures
            final(self).wf(),
            final(self).text() == old(self).text(),
            match r {
                Ok(t) => scan(old(self).text(), old(self).pos()) == Scan::Read(t@, final(self).pos()),
                Err(e) => {
                    &&& scan(old(self).text(), old(self).pos()) == Scan::Fail(e)
                    &&& final(self).pos() == final(self).text().len()
                },
            },
    {
        loop
            invariant
                self.wf(),
                self.source@ == old(self).source@,
                scan(self.source@, self.current as int) == scan(old(self).source@, old(self).current as int),
            decreases self.source@.len() - self.current,
        {
            self.white_space();
            if self.current >= self.source.len() {
                return Ok(Token::new(TokenKind::Eos, self.line));
            }
            let ghost start = self.current as int;
            let c = self.advance();
            if let Some(kind) = punctuation_kind(c) {
                return Ok(Token::new(kind, self.line));
            }
            if c == '"' || c == '\'' {
                let mut contents = String::new();
                while self.current < self.source.len() && self.peek() != c
                    invariant
                        self.wf(),
                        self.source@ == old(self).source@,
                        0 <= start,
                        start + 1 <= self.current <= self.source@.len(),
                        contents@ == self.source@.subrange(start + 1, self.current as int),
                        quote_end(self.source@, start + 1, c) == quote_end(self.source@, self.current as int, c),
                    decreases self.source@.len() - self.current,
                {
                    let ghost at = self.current as int;
                    let ch = self.advance();
                    push_char(&mut contents, ch);
                    proof {
                        lemma_subrange_push(self.source@, start + 1, at);
                        assert(contents@ =~= self.source@.subrange(start + 1, self.current as int));
                    }
                }
                if self.current >= self.source.len() {
                    return Err(LexerError::UnsupportedToken('\0', self.line as usize));
                }
                self.advance();
                return Ok(Token::new(TokenKind::String(contents), self.line));
            }
            if ('a' <= c && c <= 'z') || ('A' <= c && c <= 'Z') || c == '_' {
                let mut word: Vec<char> = Vec::new();
                word.push(c);
                proof {
                    assert(word@ =~= self.source@.subrange(start, self.current as int));
                }
                while self.current < self.source.len() && (is_alphanumeric(self.peek()) || self.peek() == '_')
                    invariant
                        self.wf(),
                        self.source@ == old(self).source@,
                        0 <= start,
                        start + 1 <= self.current <= self.source@.len(),
                        word@ == self.source@.subrange(start, self.current as int),
                        word_end(self.source@, start + 1) == word_end(self.source@, self.current as int),
                    decreases self.source@.len() - self.current,
                {
                    let ghost at = self.current as int;
                    let ch = self.advance();
                    word.push(ch);
                    proof {
                        lemma_subrange_push(self.source@, start, at);
                        assert(word@ =~= self.source@.subrange(start, self.current as int));
                    }
                }
                let kind = word_kind(&word);
                return Ok(Token::new(kind, self.line));
            }
        }
    }

    /// Reads all tokens up to and including the end of stream, or stops at the first error.
    pub fn tokenize(&mut self) -> (r: Result<Vec<Token>, LexerError>)
        requires
            old(self).wf(),
        ensures
            final(self).wf(),
            final(self).text() == old(self).text(),
            final(self).pos() == old(self).text().len(),
            final(self).line() == line_at(old(self).text(), old(self).text().len() as int),
            match r {
                Ok(ts) => lex_from(old(self).text(), old(self).pos()) == Ok::<Seq<TokenModel>, LexerError>(tokens_view(ts@)),
                Err(e) => lex_from(old(self).text(), old(self).pos()) == Err::<Seq<TokenModel>, LexerError>(e),
            },
    {
        let mut tokens: Vec<Token> = Vec::new();
        loop
            invariant
                self.wf(),
                self.source@ == old(self).source@,
                lex_from(old(self).source@, old(self).current as int) == match lex_from(self.source@, self.current as int) {
                    Ok(rest) => Ok(tokens_view(tokens@) + rest),
                    Err(e) => Err::<Seq<TokenModel>, LexerError>(e),
                },
            decreases self.source@.len() - self.current,
        {
            let ghost before = self.current as int;
            let token = match self.next_token() {
                Ok(t) => t,
                Err(e) => {
                    return Err(e);
                },
            };
            proof {
                lemma_scan_advances(self.source@, before);
            }
            let is_eos = matches!(token.kind, TokenKind::Eos);
            let ghost t = token@;
            let ghost prev = tokens@;
            tokens.push(token);
            proof {
                assert(tokens_view(tokens@) =~= tokens_view(prev).push(t));
                if !is_eos {
                    if let Ok(rest) = lex_from(self.source@, self.current as int) {
                        assert(tokens_view(prev) + (seq![t] + rest) =~= tokens_view(tokens@) + rest);
                    }
                } else {
                    assert(tokens_view(prev) + seq![t] =~= tokens_view(tokens@));
                }
            }
            if is_eos {
                return Ok(tokens);
            }
        }
    }
}

/// The kind of a one-character token, if `c` is one.
fn punctuation_kind(c: char) -> (k: Option<TokenKind>)
    ensures
        match k {
            Some(kind) => punctuation(c) == Some(kind@),
            None => punctuation(c) is None,
        },
{
    if c == '{' {
        Some(TokenKind::LeftBrace)
    } else if c == '}' {
        Some(TokenKind::RightBrace)
    } else if c == '(' {
        Some(TokenKind::LeftParen)
    } else if c == ')' {
        Some(TokenKind::RightParen)
    } else if c == '*' {
        Some(TokenKind::Star)
    } else if c == ',' {
        Some(TokenKind::Comma)
    } else if c == ';' {
        Some(TokenKind::SemiColon)
    } else if c == '=' {
        Some(TokenKind::Equals)
    } else {
        None
    }
}

/// Whether `w` spells `k`.
fn spells(w: &Vec<char>, k: &[char]) -> (r: bool)
    ensures
        r == (w@ == k@),
{
    if w.len() != k.len() {
        return false;
    }
    let mut i: usize = 0;
    while i < w.len()
        invariant
            w@.len() == k@.len(),
            i <= w@.len(),
            forall|j: int| 0 <= j < i ==> w@[j] == k@[j],
        decreases w.len() - i,
    {
        if w[i] != k[i] {
            return false;
        }
        i = i + 1;
    }
    assert(w@ =~= k@);
    true
}

/// The kind of the word `w`.
fn word_kind(w: &Vec<char>) -> (k: TokenKind)
    ensures
        k@ == word_lexeme(w@),
{
    if spells(w, &['a', 's']) {
        TokenKind::As
    } else if spells(w, &['i', 'm', 'p', 'o', 'r', 't']) {
        TokenKind::Import
    } else if spells(w, &['e', 'x', 'p', 'o', 'r', 't']) {
        TokenKind::Export
    } else if spells(w, &['f', 'r', 'o', 'm']) {
        TokenKind::From
    } else if spells(w, &['d', 'e', 'f', 'a', 'u', 'l', 't']) {
        TokenKind::Default
    } else if spells(w, &['t', 'y', 'p', 'e']) {
        TokenKind::Type
    } else if spells(w, &['f', 'u', 'n', 'c', 't', 'i', 'o', 'n']) {
        TokenKind::Function
    } else if spells(w, &['c', 'o', 'n', 's', 't']) {
        TokenKind::Const
    } else if spells(w, &['c', 'l', 'a', 's', 's']) {
        TokenKind::Class
    } else if spells(w, &['l', 'e', 't']) {
        TokenKind::Let
    } else if spells(w, &['r', 'e', 'q', 'u', 'i', 'r', 'e']) {
        TokenKind::Require
    } else {
        TokenKind::Identifier(string_from_chars(w))
    }
}

} // verus!
