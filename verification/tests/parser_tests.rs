use dead_code_detector::lexers::Lexer;
use dead_code_detector::parser::{ExportStatement, ImportStatement, Parser};

fn parse(src: &str) -> (Vec<ImportStatement>, Vec<ExportStatement>) {
    let mut lexer = Lexer::new(src.chars().collect());
    let tokens = lexer.tokenize().unwrap();
    let mut parser = Parser::new(tokens);
    parser.parse()
}

fn try_parse(src: &str) -> Option<(Vec<ImportStatement>, Vec<ExportStatement>)> {
    let mut lexer = Lexer::new(src.chars().collect());
    let tokens = lexer.tokenize().unwrap();
    let mut parser = Parser::new(tokens);
    parser.try_parse()
}

fn names(v: &[String]) -> Vec<&str> {
    v.iter().map(|s| s.as_str()).collect()
}

#[test]
fn named_imports() {
    let (imports, exports) = parse("import { useState, useEffect } from 'react';");
    assert_eq!(imports.len(), 1);
    assert!(exports.is_empty());
    assert_eq!(names(&imports[0].names), vec!["useState", "useEffect"]);
    assert_eq!(imports[0].source, "react");
}

#[test]
fn default_import_is_recorded_as_default() {
    let (imports, _) = parse("import Button from \"./Button\"");
    assert_eq!(names(&imports[0].names), vec!["default"]);
    assert_eq!(imports[0].source, "./Button");
}

#[test]
fn namespace_import_records_alias() {
    let (imports, _) = parse("import * as utils from '@/lib/utils'");
    assert_eq!(names(&imports[0].names), vec!["utils"]);
    assert_eq!(imports[0].source, "@/lib/utils");
}

#[test]
fn side_effect_import_has_no_names() {
    let (imports, _) = parse("import './globals.css'");
    assert!(imports[0].names.is_empty());
    assert_eq!(imports[0].source, "./globals.css");
}

#[test]
fn braced_list_skips_aliases_keywords_and_commas() {
    let (imports, _) = parse("import { type A, b as c } from './m'");
    assert_eq!(names(&imports[0].names), vec!["A", "b", "c"]);
}

#[test]
fn export_default_function_and_class() {
    let (_, exports) = parse("export default function Page() {} export default class Foo {}");
    assert_eq!(exports.len(), 2);
    for e in &exports {
        assert_eq!(names(&e.names), vec!["default"]);
        assert!(e.is_default);
    }
}

#[test]
fn export_declarations() {
    let (_, exports) = parse("export const a = 1; export let b; export function c() {} export class D {}");
    let all: Vec<Vec<&str>> = exports.iter().map(|e| names(&e.names)).collect();
    assert_eq!(all, vec![vec!["a"], vec!["b"], vec!["c"], vec!["D"]]);
    assert!(exports.iter().all(|e| !e.is_default));
}

#[test]
fn export_list_with_reexport() {
    let (_, exports) = parse("export { x, y } from './z'");
    assert_eq!(names(&exports[0].names), vec!["x", "y"]);
    assert!(!exports[0].is_default);
}

#[test]
fn export_star_is_not_parsed() {
    let (_, exports) = parse("export * from './all'");
    assert!(exports[0].names.is_empty());
}

#[test]
fn other_tokens_are_passed_over() {
    let (imports, exports) = parse("const x = require('y'); function f() { return x; }");
    assert!(imports.is_empty());
    assert!(exports.is_empty());
}

#[test]
fn statements_in_order() {
    let (imports, exports) = parse("import a from 'a'\nexport const b = 1\nimport { c } from 'c'\nexport default b");
    assert_eq!(imports.len(), 2);
    assert_eq!(imports[1].source, "c");
    assert_eq!(exports.len(), 2);
    assert_eq!(names(&exports[1].names), vec!["default"]);
}

#[test]
fn unclosed_brace_runs_past_end() {
    assert!(try_parse("import { a, b").is_none());
    assert!(try_parse("export { a").is_none());
}

#[test]
fn star_at_end_runs_past_end() {
    assert!(try_parse("import *").is_none());
}

#[test]
fn star_then_one_token_completes() {
    let (imports, _) = try_parse("import * as").unwrap();
    assert!(imports[0].names.is_empty());
}

#[test]
fn empty_stream_has_no_statements() {
    let mut parser = Parser::new(Vec::new());
    assert!(parser.try_parse().is_none());
}

#[test]
fn parse_twice_gives_nothing_more() {
    let mut lexer = Lexer::new("export const a = 1".chars().collect());
    let mut parser = Parser::new(lexer.tokenize().unwrap());
    assert_eq!(parser.parse().1.len(), 1);
    let (imports, exports) = parser.parse();
    assert!(imports.is_empty() && exports.is_empty());
}

#[test]
fn statement_getters() {
    let (imports, exports) = parse("import A from 'a'; export { b } from './c'; export const d = 1");
    assert_eq!(imports[0].names(), &vec!["default".to_string()]);
    assert_eq!(imports[0].source(), "a");
    assert!(imports[0].is_default());
    assert_eq!(exports[0].names(), &vec!["b".to_string()]);
    assert_eq!(exports[0].source(), &Some("./c".to_string()));
    assert!(!exports[0].is_default());
    assert_eq!(exports[1].source(), &None);
}
