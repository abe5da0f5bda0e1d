use dead_code_detector::errors::LexerError;
use dead_code_detector::lexers::{Lexer, Token, TokenKind};

fn lex(src: &str) -> Result<Vec<Token>, LexerError> {
    let mut lexer = Lexer::new(src.chars().collect());
    lexer.tokenize()
}

fn kinds(src: &str) -> Vec<TokenKind> {
    lex(src).unwrap().into_iter().map(|t| t.kind).collect()
}

fn ident(s: &str) -> TokenKind {
    TokenKind::Identifier(s.to_string())
}

fn string(s: &str) -> TokenKind {
    TokenKind::String(s.to_string())
}

#[test]
fn empty_input_gives_only_eos() {
    assert_eq!(lex("").unwrap(), vec![Token::new(TokenKind::Eos, 1)]);
}

#[test]
fn whitespace_only_gives_eos_on_last_line() {
    assert_eq!(lex(" \t\n\n  \r\n").unwrap(), vec![Token::new(TokenKind::Eos, 4)]);
}

#[test]
fn named_import_tokens() {
    assert_eq!(
        kinds("import { a, b } from './x';"),
        vec![
            TokenKind::Import,
            TokenKind::LeftBrace,
            ident("a"),
            TokenKind::Comma,
            ident("b"),
            TokenKind::RightBrace,
            TokenKind::From,
            string("./x"),
            TokenKind::SemiColon,
            TokenKind::Eos,
        ]
    );
}

#[test]
fn all_keywords_are_recognised() {
    assert_eq!(
        kinds("as import export from default type function const class let require"),
        vec![
            TokenKind::As,
            TokenKind::Import,
            TokenKind::Export,
            TokenKind::From,
            TokenKind::Default,
            TokenKind::Type,
            TokenKind::Function,
            TokenKind::Const,
            TokenKind::Class,
            TokenKind::Let,
            TokenKind::Require,
            TokenKind::Eos,
        ]
    );
}

#[test]
fn keyword_prefixes_are_identifiers() {
    assert_eq!(kinds("imports exported _from Default"), vec![ident("imports"), ident("exported"), ident("_from"), ident("Default"), TokenKind::Eos]);
}

#[test]
fn punctuation_tokens() {
    assert_eq!(
        kinds("{}()*,;="),
        vec![
            TokenKind::LeftBrace,
            TokenKind::RightBrace,
            TokenKind::LeftParen,
            TokenKind::RightParen,
            TokenKind::Star,
            TokenKind::Comma,
            TokenKind::SemiColon,
            TokenKind::Equals,
            TokenKind::Eos,
        ]
    );
}

#[test]
fn identifiers_continue_with_digits_and_unicode_letters() {
    assert_eq!(kinds("abc123 _x9 café"), vec![ident("abc123"), ident("_x9"), ident("café"), TokenKind::Eos]);
}

#[test]
fn other_characters_are_skipped() {
    assert_eq!(kinds("1 + 2 . ? é x"), vec![ident("x"), TokenKind::Eos]);
}

#[test]
fn digits_do_not_start_identifiers() {
    assert_eq!(kinds("9lives"), vec![ident("lives"), TokenKind::Eos]);
}

#[test]
fn strings_with_both_quotes() {
    assert_eq!(kinds("\"a'b\" 'c\"d'"), vec![string("a'b"), string("c\"d"), TokenKind::Eos]);
}

#[test]
fn string_may_span_lines() {
    assert_eq!(lex("'a\nb' x").unwrap(), vec![Token::new(string("a\nb"), 2), Token::new(ident("x"), 2), Token::new(TokenKind::Eos, 2)]);
}

#[test]
fn token_lines_follow_newlines() {
    assert_eq!(
        lex("import\nx\n\nfrom").unwrap(),
        vec![
            Token::new(TokenKind::Import, 1),
            Token::new(ident("x"), 2),
            Token::new(TokenKind::From, 4),
            Token::new(TokenKind::Eos, 4),
        ]
    );
}

#[test]
fn unterminated_string_is_an_error_on_last_line() {
    assert_eq!(lex("import x from './x\n\n").unwrap_err(), LexerError::UnsupportedToken('\0', 3));
}

#[test]
fn unterminated_string_error_message() {
    let e = lex("'abc").unwrap_err();
    assert_eq!(e.message(), "Lexer Error: Token '\0' is not supported at line 1");
}

#[test]
fn error_messages() {
    assert_eq!(
        LexerError::UnsupportedToken('x', 1204).message(),
        "Lexer Error: Token 'x' is not supported at line 1204"
    );
    assert_eq!(LexerError::UnexpectedEOF.message(), "Lexer Error: Unexpected end of file");
    assert_eq!(LexerError::UnsupportedToken('#', 0).message(), "Lexer Error: Token '#' is not supported at line 0");
}

#[test]
fn non_ascii_whitespace_separates_words() {
    assert_eq!(kinds("a\u{a0}b\u{3000}c"), vec![ident("a"), ident("b"), ident("c"), TokenKind::Eos]);
}

#[test]
fn tokens_end_with_single_eos() {
    let ts = lex("export default function Page() { return 1; }").unwrap();
    assert_eq!(ts.last().unwrap().kind, TokenKind::Eos);
    assert_eq!(ts.iter().filter(|t| t.kind == TokenKind::Eos).count(), 1);
}

#[test]
fn source_without_quotes_always_lexes() {
    assert!(lex("@@@ ### $$$ \\\\ import { x } ~~~").is_ok());
}

#[test]
fn line_counter_check() {
    let lexer = Lexer::new("a\nb\nc".chars().collect());
    assert!(lexer.lines_fit());
}

#[test]
fn tokenize_twice_gives_eos() {
    let mut lexer = Lexer::new("import x".chars().collect());
    assert_eq!(lexer.tokenize().unwrap().len(), 3);
    assert_eq!(lexer.tokenize().unwrap(), vec![Token::new(TokenKind::Eos, 1)]);
}

#[test]
fn token_getters() {
    let ts = lex("a\nfrom").unwrap();
    assert_eq!(*ts[1].kind(), TokenKind::From);
    assert_eq!(ts[1].line(), 2);
    assert_eq!(ts[0].line(), 1);
}

#[test]
fn unicode_whitespace_class() {
    assert_eq!(
        kinds("a\u{85}b\u{1680}c\u{2000}d\u{200a}e\u{2028}f\u{2029}g\u{202f}h\u{205f}i\u{b}j\u{c}k"),
        vec![ident("a"), ident("b"), ident("c"), ident("d"), ident("e"), ident("f"), ident("g"), ident("h"), ident("i"), ident("j"), ident("k"), TokenKind::Eos]
    );
    assert_eq!(kinds("a\u{200b}b"), vec![ident("a"), ident("b"), TokenKind::Eos]);
}

#[test]
fn joined_texts_join_tokens() {
    let a = lex("import x\n").unwrap();
    let b = lex("from\n'y'").unwrap();
    let c = lex("import x\n from\n'y'").unwrap();
    let mut expected: Vec<Token> = a[..a.len() - 1].to_vec();
    for t in b {
        expected.push(Token::new(t.kind.clone(), t.line() + 1));
    }
    assert_eq!(c, expected);
}
