//! The parser: reads import and export statements out of a token stream.
use vstd::prelude::*;
use crate::lexers::{lemma_token_kind, tokens_view, Lexeme, Token, TokenKind, TokenModel};

verus! {

/// An import statement: the names it brings in and the module it names.
#[derive(Debug)]
pub struct ImportStatement {
    pub names: Vec<String>,
    pub source: String,
    pub(crate) is_default: bool,
}

/// An export statement: the names it makes public, and the module it re-exports from.
#[derive(Debug)]
pub struct ExportStatement {
    pub names: Vec<String>,
    pub(crate) source: Option<String>,
    pub is_default: bool,
}

/// An import statement as a value.
pub struct ImportModel {
    pub names: Seq<Seq<char>>,
    pub source: Seq<char>,
    pub is_default: bool,
}

/// An export statement as a value.
pub struct ExportModel {
    pub names: Seq<Seq<char>>,
    pub source: Option<Seq<char>>,
    pub is_default: bool,
}

/// The texts of a sequence of strings.
pub open spec fn texts(v: Seq<String>) -> Seq<Seq<char>> {
    v.map_values(|s: String| s@)
}

impl View for ImportStatement {
    type V = ImportModel;

    closed spec fn view(&self) -> ImportModel {
        ImportModel { names: texts(self.names@), source: self.source@, is_default: self.is_default }
    }
}

impl View for ExportStatement {
    type V = ExportModel;

    closed spec fn view(&self) -> ExportModel {
        ExportModel {
            names: texts(self.names@),
            source: match self.source {
                Some(s) => Some(s@),
                None => None,
            },
            is_default: self.is_default,
        }
    }
}

impl ImportStatement {
    /// The names this statement brings in.
    pub fn names(&self) -> (v: &Vec<String>)
        ensures
            texts(v@) == self@.names,
    {
        &self.names
    }

    /// The module this statement names.
    pub fn source(&self) -> (s: &String)
        ensures
            s@ == self@.source,
    {
        &self.source
    }

    /// Whether this is a default import.
    pub fn is_default(&self) -> (b: bool)
        ensures
            b == self@.is_default,
    {
        self.is_default
    }
}

impl ExportStatement {
    /// The names this statement makes public.
    pub fn names(&self) -> (v: &Vec<String>)
        ensures
            texts(v@) == self@.names,
    {
        &self.names
    }

    /// The module this statement re-exports from, if any.
    pub fn source(&self) -> (s: &Option<String>)
        ensures
            match *s {
                Some(t) => self@.source == Some(t@),
                None => self@.source is None,
            },
    {
        &self.source
    }

    /// Whether this is a default export.
    pub fn is_default(&self) -> (b: bool)
        ensures
            b == self@.is_default,
    {
        self.is_default
    }
}

/// The fields of an import statement are those of its view.
pub(crate) proof fn lemma_import_view(s: ImportStatement)
    ensures
        s@.names == texts(s.names@),
        s@.source == s.source@,
{
}

/// The fields of an export statement are those of its view.
pub(crate) proof fn lemma_export_view(s: ExportStatement)
    ensures
        s@.names == texts(s.names@),
{
}

/// The views of a sequence of import statements.
pub open spec fn imports_view(v: Seq<ImportStatement>) -> Seq<ImportModel> {
    v.map_values(|s: ImportStatement| s@)
}

/// The views of a sequence of export statements.
pub open spec fn exports_view(v: Seq<ExportStatement>) -> Seq<ExportModel> {
    v.map_values(|s: ExportStatement| s@)
}

// ---------------------------------------------------------------------------
// The grammar, over the sequence of lexemes.
// ---------------------------------------------------------------------------

/// The lexemes of a sequence of tokens.
pub open spec fn lexemes(ts: Seq<TokenModel>) -> Seq<Lexeme> {
    ts.map_values(|t: TokenModel| t.kind)
}

/// The name under which a default import or export is recorded.
pub open spec fn default_name() -> Seq<char> {
    seq!['d', 'e', 'f', 'a', 'u', 'l', 't']
}

/// The identifiers of a braced list that starts at `i`, and the position after its closing
/// brace. Everything other than identifiers, up to the first `}`, is passed over; without a
/// `}` the list runs to the end of the stream.
pub open spec fn braced_names(ks: Seq<Lexeme>, i: int) -> (Seq<Seq<char>>, int)
    decreases ks.len() - i,
{
    if i < 0 || i >= ks.len() {
        (seq![], i)
    } else {
        match ks[i] {
            Lexeme::RightBrace => (seq![], i + 1),
            Lexeme::Ident(n) => {
                let rest = braced_names(ks, i + 1);
                (seq![n] + rest.0, rest.1)
            },
            _ => braced_names(ks, i + 1),
        }
    }
}

/// What follows `import` at `p`: the names brought in, whether it is a default import,
/// and the position after the clause. `import * as x` needs a token after the star;
/// without one, there is no result.
pub open spec fn import_clause(ks: Seq<Lexeme>, p: int) -> Option<(Seq<Seq<char>>, bool, int)> {
    if p >= ks.len() {
        Some((seq![], false, p))
    } else {
        match ks[p] {
            Lexeme::LeftBrace => {
                let (ns, q) = braced_names(ks, p + 1);
                Some((ns, false, q))
            },
            Lexeme::Ident(_) => Some((seq![default_name()], true, p + 1)),
            Lexeme::Star => {
                if p + 1 >= ks.len() {
                    None
                } else if p + 2 < ks.len() && ks[p + 2] is Ident {
                    Some((seq![ks[p + 2]->Ident_0], false, p + 3))
                } else {
                    Some((seq![], false, p + 2))
                }
            },
            _ => Some((seq![], false, p)),
        }
    }
}

/// The module an import names after its clause at `q` (after an optional `from`), empty
/// when no string follows, and the position after it.
pub open spec fn import_source(ks: Seq<Lexeme>, q: int) -> (Seq<char>, int) {
    let q1 = if 0 <= q < ks.len() && ks[q] is From { q + 1 } else { q };
    if 0 <= q1 < ks.len() && ks[q1] is Str {
        (ks[q1]->Str_0, q1 + 1)
    } else {
        (seq![], q1)
    }
}

/// The import statement whose `import` stands at `i`, and the position after it.
pub open spec fn import_at(ks: Seq<Lexeme>, i: int) -> Option<(ImportModel, int)> {
    match import_clause(ks, i + 1) {
        None => None,
        Some((ns, d, q)) => {
            let (src, r) = import_source(ks, q);
            Some((ImportModel { names: ns, source: src, is_default: d }, r))
        },
    }
}

/// What follows `export` at `p`: the names made public, whether it is a default export,
/// and the position after the clause.
pub open spec fn export_clause(ks: Seq<Lexeme>, p: int) -> (Seq<Seq<char>>, bool, int) {
    if p >= ks.len() {
        (seq![], false, p)
    } else {
        match ks[p] {
            Lexeme::Default => {
                let q = p + 1;
                let r = if q < ks.len() && (ks[q] is Function || ks[q] is Class) {
                    if q + 1 < ks.len() && ks[q + 1] is Ident { q + 2 } else { q + 1 }
                } else {
                    q
                };
                (seq![default_name()], true, r)
            },
            Lexeme::LeftBrace => {
                let (ns, q) = braced_names(ks, p + 1);
                (ns, false, q)
            },
            Lexeme::Const | Lexeme::Function | Lexeme::Class | Lexeme::Let => {
                if p + 1 < ks.len() && ks[p + 1] is Ident {
                    (seq![ks[p + 1]->Ident_0], false, p + 2)
                } else {
                    (seq![], false, p + 1)
                }
            },
            _ => (seq![], false, p),
        }
    }
}

/// The module an export re-exports from, if `from` and a string follow its clause at `q`,
/// and the position after it.
pub open spec fn export_source(ks: Seq<Lexeme>, q: int) -> (Option<Seq<char>>, int) {
    if 0 <= q < ks.len() && ks[q] is From {
        if q + 1 < ks.len() && ks[q + 1] is Str {
            (Some(ks[q + 1]->Str_0), q + 2)
        } else {
            (None, q + 1)
        }
    } else {
        (None, q)
    }
}

/// The export statement whose `export` stands at `i`, and the position after it.
pub open spec fn export_at(ks: Seq<Lexeme>, i: int) -> (ExportModel, int) {
    let (ns, d, q) = export_clause(ks, i + 1);
    let (src, r) = export_source(ks, q);
    (ExportModel { names: ns, source: src, is_default: d }, r)
}

pub proof fn lemma_braced_names_bounds(ks: Seq<Lexeme>, i: int)
    requires
        0 <= i,
    ensures
        i <= braced_names(ks, i).1,
        i <= ks.len() ==> braced_names(ks, i).1 <= ks.len(),
    decreases ks.len() - i,
{
    if i < ks.len() {
        lemma_braced_names_bounds(ks, i + 1);
    }
}

/// A statement ends after its keyword and within the stream.
pub proof fn lemma_statement_bounds(ks: Seq<Lexeme>, i: int)
    requires
        0 <= i < ks.len(),
    ensures
        import_at(ks, i) matches Some((m, j)) ==> i < j <= ks.len(),
        i < export_at(ks, i).1 <= ks.len(),
{
    lemma_braced_names_bounds(ks, i + 2);
}

/// The import and export statements of the stream from `i` up to the end-of-stream token.
/// Any other token is passed over. There is no result when the statements run past the end
/// of the stream without meeting the end-of-stream token.
pub open spec fn parse_from(ks: Seq<Lexeme>, i: int) -> Option<(Seq<ImportModel>, Seq<ExportModel>)>
    decreases ks.len() - i,
{
    if i < 0 || i >= ks.len() {
        None
    } else {
        proof {
            lemma_statement_bounds(ks, i);
        }
        match ks[i] {
            Lexeme::Eos => Some((seq![], seq![])),
            Lexeme::Import => match import_at(ks, i) {
                None => None,
                Some((m, j)) => match parse_from(ks, j) {
                    None => None,
                    Some((is, es)) => Some((seq![m] + is, es)),
                },
            },
            Lexeme::Export => {
                let (m, j) = export_at(ks, i);
                match parse_from(ks, j) {
                    None => None,
                    Some((is, es)) => Some((is, seq![m] + es)),
                }
            },
            _ => parse_from(ks, i + 1),
        }
    }
}

/// The statements of a whole token stream.
pub open spec fn parse_tokens(ts: Seq<TokenModel>) -> Option<(Seq<ImportModel>, Seq<ExportModel>)> {
    parse_from(lexemes(ts), 0)
}

/// Every name is `default` or the text of an identifier of the stream.
pub open spec fn names_from_stream(ks: Seq<Lexeme>, names: Seq<Seq<char>>) -> bool {
    forall|k: int|
        0 <= k < names.len() ==> #[trigger] names[k] == default_name() || exists|j: int|
            0 <= j < ks.len() && ks[j] == Lexeme::Ident(names[k])
}

/// A default statement names `default` and nothing else.
pub open spec fn default_names_only(is_default: bool, names: Seq<Seq<char>>) -> bool {
    is_default ==> names == seq![default_name()]
}

proof fn lemma_braced_names_from_stream(ks: Seq<Lexeme>, i: int)
    requires
        0 <= i,
    ensures
        names_from_stream(ks, braced_names(ks, i).0),
    decreases ks.len() - i,
{
    if i < ks.len() {
        lemma_braced_names_from_stream(ks, i + 1);
        if let Lexeme::Ident(n) = ks[i] {
            let rest = braced_names(ks, i + 1);
            let ns = seq![n] + rest.0;
            assert forall|k: int| 0 <= k < ns.len() implies #[trigger] ns[k] == default_name() || exists|j: int|
                0 <= j < ks.len() && ks[j] == Lexeme::Ident(ns[k]) by {
                if k == 0 {
                    assert(ks[i] == Lexeme::Ident(ns[k]));
                } else {
                    assert(ns[k] == rest.0[k - 1]);
                }
            }
        }
    }
}

proof fn lemma_statement_names(ks: Seq<Lexeme>, i: int)
    requires
        0 <= i < ks.len(),
    ensures
        import_at(ks, i) matches Some((m, j)) ==> names_from_stream(ks, m.names) && default_names_only(m.is_default, m.names),
        names_from_stream(ks, export_at(ks, i).0.names),
        default_names_only(export_at(ks, i).0.is_default, export_at(ks, i).0.names),
{
    lemma_braced_names_from_stream(ks, i + 2);
    let p = i + 1;
    if p < ks.len() {
        if p + 2 < ks.len() && ks[p + 2] is Ident {
            let ns = seq![ks[p + 2]->Ident_0];
            assert(ks[p + 2] == Lexeme::Ident(ns[0]));
        }
        if p + 1 < ks.len() && ks[p + 1] is Ident {
            let ns = seq![ks[p + 1]->Ident_0];
            assert(ks[p + 1] == Lexeme::Ident(ns[0]));
        }
    }
}

/// Parsing from `i` finds statements whose names come from the stream, and whose default
/// forms name `default` alone.
proof fn lemma_parse_names(ks: Seq<Lexeme>, i: int)
    requires
        0 <= i,
    ensures
        parse_from(ks, i) matches Some((is, es)) ==> {
            &&& forall|k: int| 0 <= k < is.len() ==> names_from_stream(ks, #[trigger] is[k].names)
                && default_names_only(is[k].is_default, is[k].names)
            &&& forall|k: int| 0 <= k < es.len() ==> names_from_stream(ks, #[trigger] es[k].names)
                && default_names_only(es[k].is_default, es[k].names)
        },
    decreases ks.len() - i,
{
    if i < ks.len() {
        lemma_statement_bounds(ks, i);
        lemma_statement_names(ks, i);
        match ks[i] {
            Lexeme::Eos => {},
            Lexeme::Import => {
                if let Some((m, j)) = import_at(ks, i) {
                    lemma_parse_names(ks, j);
                    if let Some((is, es)) = parse_from(ks, j) {
                        let all = seq![m] + is;
                        assert forall|k: int| 0 <= k < all.len() implies names_from_stream(ks, #[trigger] all[k].names)
                            && default_names_only(all[k].is_default, all[k].names) by {
                            if k > 0 {
                                assert(all[k] == is[k - 1]);
                            }
                        }
                    }
                }
            },
            Lexeme::Export => {
                let (m, j) = export_at(ks, i);
                lemma_parse_names(ks, j);
                if let Some((is, es)) = parse_from(ks, j) {
                    let all = seq![m] + es;
                    assert forall|k: int| 0 <= k < all.len() implies names_from_stream(ks, #[trigger] all[k].names)
                        && default_names_only(all[k].is_default, all[k].names) by {
                        if k > 0 {
                            assert(all[k] == es[k - 1]);
                        }
                    }
                }
            },
            _ => {
                lemma_parse_names(ks, i + 1);
            },
        }
    }
}

/// Every name that a parsed statement records is `default` or the text of an identifier
/// token of the stream; a default import or export records the single name `default`.
pub proof fn law_statement_names(ks: Seq<Lexeme>)
    ensures
        parse_from(ks, 0) matches Some((is, es)) ==> {
            &&& forall|k: int| 0 <= k < is.len() ==> names_from_stream(ks, #[trigger] is[k].names)
                && default_names_only(is[k].is_default, is[k].names)
            &&& forall|k: int| 0 <= k < es.len() ==> names_from_stream(ks, #[trigger] es[k].names)
                && default_names_only(es[k].is_default, es[k].names)
        },
{
    lemma_parse_names(ks, 0);
}

// ---------------------------------------------------------------------------
// The parser.
// ---------------------------------------------------------------------------

/// A parser over a token stream, with the position of the next token to read.
pub struct Parser {
    source: Vec<Token>,
    current: usize,
}

/// The name `default`.
fn default_string() -> (s: String)
    ensures
        s@ == default_name(),
{
    let s = String::from_str("default");
    proof {
        reveal_strlit("default");
        assert(s@ =~= default_name());
    }
    s
}

impl Parser {
    /// The tokens of the stream.
    pub closed spec fn tokens(&self) -> Seq<TokenModel> {
        tokens_view(self.source@)
    }

    /// The lexemes of the stream.
    pub open spec fn kinds(&self) -> Seq<Lexeme> {
        lexemes(self.tokens())
    }

    /// The position of the next token.
    pub closed spec fn pos(&self) -> int {
        self.current as int
    }

    /// The position is never negative.
    pub proof fn lemma_pos_nonnegative(&self)
        ensures
            0 <= self.pos(),
    {
    }

    closed spec fn wf(&self) -> bool {
        self.current <= self.source@.len()
    }

    #[verifier::type_invariant]
    closed spec fn position_in_stream(&self) -> bool {
        self.wf()
    }

    /// A parser at the start of `lexer_tokens`.
    pub fn new(lexer_tokens: Vec<Token>) -> (p: Self)
        ensures
            p.tokens() == tokens_view(lexer_tokens@),
            p.pos() == 0,
    {
        Parser { source: lexer_tokens, current: 0 }
    }

    proof fn lemma_kind_at(&self, i: int)
        requires
            0 <= i < self.source@.len(),
        ensures
            self.kinds().len() == self.source@.len(),
            self.kinds()[i] == self.source@[i].kind@,
    {
        lemma_token_kind(self.source@[i]);
    }

    /// The next token, if any.
    fn peek(&self) -> (t: Option<&Token>)
        requires
            self.wf(),
        ensures
            self.pos() < self.kinds().len() ==> (t matches Some(tok) && tok.kind@ == self.kinds()[self.pos()]),
            self.pos() >= self.kinds().len() ==> t is None,
    {
        proof {
            if self.current < self.source@.len() {
                self.lemma_kind_at(self.current as int);
            }
        }
        if self.current < self.source.len() {
            Some(&self.source[self.current])
        } else {
            None
        }
    }

    /// Moves past the next token, and gives it.
    fn advance(&mut self) -> (t: &Token)
        requires
            old(self).wf(),
            old(self).pos() < old(self).kinds().len(),
        ensures
            final(self).wf(),
            final(self).tokens() == old(self).tokens(),
            final(self).pos() == old(self).pos() + 1,
            t@ == old(self).tokens()[old(self).pos()],
    {
        proof {
            self.lemma_kinds_len();
            assert(self.current < self.source.len());
        }
        let t = &self.source[self.current];
        self.current = self.current + 1;
        t
    }

    /// Reads a braced list, the opening brace already read.
    fn braced_names(&mut self) -> (names: Vec<String>)
        requires
            old(self).wf(),
        ensures
            final(self).wf(),
            final(self).tokens() == old(self).tokens(),
            braced_names(old(self).kinds(), old(self).pos()) == (texts(names@), final(self).pos()),
    {
        let mut names: Vec<String> = Vec::new();
        proof {
            self.lemma_kinds_len();
        }
        while self.current < self.source.len()
            invariant
                self.wf(),
                self.tokens() == old(self).tokens(),
                self.kinds().len() == self.source@.len(),
                braced_names(self.kinds(), old(self).pos()) == ({
                    let rest = braced_names(self.kinds(), self.pos());
                    (texts(names@) + rest.0, rest.1)
                }),
            decreases self.source@.len() - self.current,
        {
            proof {
                self.lemma_kind_at(self.current as int);
            }
            let ghost prev = names@;
            match &self.source[self.current].kind {
                TokenKind::RightBrace => {
                    self.advance();
                    proof {
                        assert(texts(names@) + seq![] =~= texts(names@));
                    }
                    return names;
                },
                TokenKind::Identifier(name) => {
                    names.push(name.clone());
                    self.advance();
                    proof {
                        let rest = braced_names(self.kinds(), self.pos());
                        assert(texts(names@) =~= texts(prev).push(name@));
                        assert(texts(prev) + (seq![name@] + rest.0) =~= texts(names@) + rest.0);
                    }
                },
                _ => {
                    self.advance();
                },
            }
        }
        proof {
            assert(texts(names@) + seq![] =~= texts(names@));
        }
        names
    }

    proof fn lemma_kinds_len(&self)
        ensures
            self.kinds().len() == self.source@.len(),
    {
    }

    /// Reads an import statement, standing on its `import`; `None` where the statement
    /// needs a token past the end of the stream.
    fn parse_import(&mut self) -> (r: Option<ImportStatement>)
        requires
            old(self).wf(),
            old(self).pos() < old(self).kinds().len(),
        ensures
            final(self).wf(),
            final(self).tokens() == old(self).tokens(),
            match import_at(old(self).kinds(), old(self).pos()) {
                None => r is None,
                Some((m, j)) => (r matches Some(s) && s@ == m && final(self).pos() == j),
            },
    {
        let mut names: Vec<String> = Vec::new();
        let mut source = String::new();
        let mut is_default = false;
        let ghost ks = self.kinds();
        let ghost p = self.pos() + 1;
        proof {
            self.lemma_kinds_len();
        }
        self.advance();
        if let Some(token) = self.peek() {
            match &token.kind {
                TokenKind::LeftBrace => {
                    self.advance();
                    names = self.braced_names();
                },
                TokenKind::Identifier(_) => {
                    is_default = true;
                    names.push(default_string());
                    self.advance();
                    proof {
                        assert(texts(names@) =~= seq![default_name()]);
                    }
                },
                TokenKind::Star => {
                    self.advance();
                    if self.current >= self.source.len() {
                        return None;
                    }
                    self.advance();
                    if let Some(t) = self.peek() {
                        if let TokenKind::Identifier(name) = &t.kind {
                            names.push(name.clone());
                            self.advance();
                            proof {
                                assert(texts(names@) =~= seq![name@]);
                            }
                        }
                    }
                },
                _ => {},
            }
        }
        proof {
            assert(import_clause(ks, p) == Some((texts(names@), is_default, self.pos())));
        }
        if let Some(t) = self.peek() {
            if let TokenKind::From = &t.kind {
                self.advance();
            }
        }
        if let Some(t) = self.peek() {
            if let TokenKind::String(src) = &t.kind {
                source = src.clone();
                self.advance();
            }
        }
        let s = ImportStatement { names, source, is_default };
        Some(s)
    }

    /// Reads an export statement, standing on its `export`.
    fn parse_export(&mut self) -> (s: ExportStatement)
        requires
            old(self).wf(),
            old(self).pos() < old(self).kinds().len(),
        ensures
            final(self).wf(),
            final(self).tokens() == old(self).tokens(),
            export_at(old(self).kinds(), old(self).pos()) == (s@, final(self).pos()),
    {
        let mut names: Vec<String> = Vec::new();
        let mut is_default = false;
        let mut source: Option<String> = None;
        let ghost ks = self.kinds();
        let ghost p = self.pos() + 1;
        proof {
            self.lemma_kinds_len();
        }
        self.advance();
        if let Some(token) = self.peek() {
            match &token.kind {
                TokenKind::Default => {
                    is_default = true;
                    self.advance();
                    names.push(default_string());
                    proof {
                        assert(texts(names@) =~= seq![default_name()]);
                    }
                    if let Some(t) = self.peek() {
                        if matches!(t.kind, TokenKind::Function | TokenKind::Class) {
                            self.advance();
                            if let Some(t2) = self.peek() {
                                if let TokenKind::Identifier(_) = &t2.kind {
                                    self.advance();
                                }
                            }
                        }
                    }
                },
                TokenKind::LeftBrace => {
                    self.advance();
                    names = self.braced_names();
                },
                TokenKind::Const | TokenKind::Function | TokenKind::Class | TokenKind::Let => {
                    self.advance();
                    if let Some(t) = self.peek() {
                        if let TokenKind::Identifier(name) = &t.kind {
                            names.push(name.clone());
                            self.advance();
                            proof {
                                assert(texts(names@) =~= seq![name@]);
                            }
                        }
                    }
                },
                _ => {},
            }
        }
        proof {
            assert(export_clause(ks, p) == (texts(names@), is_default, self.pos()));
        }
        if let Some(t) = self.peek() {
            if let TokenKind::From = &t.kind {
                self.advance();
                if let Some(t) = self.peek() {
                    if let TokenKind::String(src) = &t.kind {
                        source = Some(src.clone());
                        self.advance();
                    }
                }
            }
        }
        ExportStatement { names, source, is_default }
    }

    /// Reads the import and export statements up to the end-of-stream token; `None` where
    /// a statement runs past the end of the stream.
    pub fn try_parse(&mut self) -> (r: Option<(Vec<ImportStatement>, Vec<ExportStatement>)>)
        ensures
            final(self).tokens() == old(self).tokens(),
            r is Some ==> 0 <= final(self).pos() < final(self).kinds().len() && final(self).kinds()[final(self).pos()] is Eos,
            match parse_from(old(self).kinds(), old(self).pos()) {
                None => r is None,
                Some((is, es)) => (r matches Some((vi, ve)) && imports_view(vi@) == is && exports_view(ve@) == es),
            },
    {
        let mut imports: Vec<ImportStatement> = Vec::new();
        let mut exports: Vec<ExportStatement> = Vec::new();
        proof {
            self.lemma_kinds_len();
        }
        proof {
            use_type_invariant(&*self);
        }
        loop
            invariant
                self.wf(),
                self.tokens() == old(self).tokens(),
                self.kinds().len() == self.source@.len(),
                parse_from(self.kinds(), old(self).pos()) == match parse_from(self.kinds(), self.pos()) {
                    None => None,
                    Some((is, es)) => Some((imports_view(imports@) + is, exports_view(exports@) + es)),
                },
            decreases self.source@.len() - self.current,
        {
            let ghost ks = self.kinds();
            let ghost i = self.pos();
            if self.current >= self.source.len() {
                return None;
            }
            proof {
                self.lemma_kind_at(self.current as int);
                lemma_statement_bounds(ks, i);
            }
            match &self.source[self.current].kind {
                TokenKind::Eos => {
                    proof {
                        assert(imports_view(imports@) + seq![] =~= imports_view(imports@));
                        assert(exports_view(exports@) + seq![] =~= exports_view(exports@));
                    }
                    return Some((imports, exports));
                },
                TokenKind::Import => {
                    match self.parse_import() {
                        None => {
                            return None;
                        },
                        Some(s) => {
                            let ghost prev = imports@;
                            let ghost m = s@;
                            imports.push(s);
                            proof {
                                assert(imports_view(imports@) =~= imports_view(prev).push(m));
                                if let Some((is, es)) = parse_from(ks, self.pos()) {
                                    assert(imports_view(prev) + (seq![m] + is) =~= imports_view(imports@) + is);
                                }
                            }
                        },
                    }
                },
                TokenKind::Export => {
                    let s = self.parse_export();
                    let ghost prev = exports@;
                    let ghost m = s@;
                    exports.push(s);
                    proof {
                        assert(exports_view(exports@) =~= exports_view(prev).push(m));
                        if let Some((is, es)) = parse_from(ks, self.pos()) {
                            assert(exports_view(prev) + (seq![m] + es) =~= exports_view(exports@) + es);
                        }
                    }
                },
                _ => {
                    self.advance();
                },
            }
        }
    }

    /// Reads the import and export statements up to the end-of-stream token.
    pub fn parse(&mut self) -> (r: (Vec<ImportStatement>, Vec<ExportStatement>))
        requires
            parse_from(old(self).kinds(), old(self).pos()) is Some,
        ensures
            final(self).tokens() == old(self).tokens(),
            0 <= final(self).pos() < final(self).kinds().len() && final(self).kinds()[final(self).pos()] is Eos,
            parse_from(old(self).kinds(), old(self).pos()) == Some((imports_view(r.0@), exports_view(r.1@))),
    {
        match self.try_parse() {
            Some(r) => r,
            None => {
                proof {
                    assert(false);
                }
                (Vec::new(), Vec::new())
            },
        }
    }
}

} // verus!
