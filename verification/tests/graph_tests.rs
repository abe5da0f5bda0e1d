use dead_code_detector::file_scanner::{entry_action, is_ignored_directory, is_source_extension};
use dead_code_detector::graph::{
    build_graph, find_dead_exports, is_analyzable, lookup_candidates, plan_import, Candidate, FileFacts, Graph,
    ImportBase, SourceFile,
};

fn file(path: &str, text: &str) -> SourceFile {
    SourceFile { path: path.to_string(), text: text.chars().collect() }
}

fn facts(name: &str, canonical: &str, resolved: Vec<Option<&str>>) -> FileFacts {
    FileFacts {
        file_name: Some(name.to_string()),
        canonical: Some(canonical.to_string()),
        resolved_imports: resolved.into_iter().map(|r| r.map(|s| s.to_string())).collect(),
    }
}

fn dead(graph: &Graph, facts: &Vec<FileFacts>) -> Vec<(String, String)> {
    find_dead_exports(graph, facts)
}

fn pair(p: &str, n: &str) -> (String, String) {
    (p.to_string(), n.to_string())
}

#[test]
fn unimported_export_is_dead() {
    let g = build_graph(vec![
        file("src/a.ts", "export const used = 1; export const unused = 2;"),
        file("src/b.ts", "import { used } from './a';"),
    ]);
    let f = vec![facts("a.ts", "/p/src/a.ts", vec![]), facts("b.ts", "/p/src/b.ts", vec![Some("/p/src/a.ts")])];
    assert_eq!(dead(&g, &f), vec![pair("src/a.ts", "unused")]);
}

#[test]
fn import_resolved_elsewhere_does_not_count() {
    let g = build_graph(vec![
        file("a.ts", "export const x = 1;"),
        file("b.ts", "import { x } from './other';"),
    ]);
    let f = vec![facts("a.ts", "/a.ts", vec![]), facts("b.ts", "/b.ts", vec![Some("/other.ts")])];
    assert_eq!(dead(&g, &f), vec![pair("a.ts", "x")]);
}

#[test]
fn unresolved_import_does_not_count() {
    let g = build_graph(vec![file("a.ts", "export const x = 1;"), file("b.ts", "import { x } from './a';")]);
    let f = vec![facts("a.ts", "/a.ts", vec![]), facts("b.ts", "/b.ts", vec![None])];
    assert_eq!(dead(&g, &f), vec![pair("a.ts", "x")]);
}

#[test]
fn file_without_canonical_path_reports_nothing() {
    let g = build_graph(vec![file("a.ts", "export const x = 1;")]);
    let f = vec![FileFacts { file_name: Some("a.ts".to_string()), canonical: None, resolved_imports: vec![] }];
    assert!(dead(&g, &f).is_empty());
}

#[test]
fn framework_names_are_live_everywhere() {
    let g = build_graph(vec![file(
        "lib.ts",
        "export const metadata = 1; export const dynamic = 1; export const revalidate = 1; \
         export function generateStaticParams() {} export function generateMetadata() {} export default function X() {} \
         export const other = 1;",
    )]);
    let f = vec![facts("lib.ts", "/lib.ts", vec![])];
    assert_eq!(dead(&g, &f), vec![pair("lib.ts", "other")]);
}

#[test]
fn route_handlers_live_only_in_route_files() {
    let src = "export function GET() {} export function POST() {} export function PUT() {} \
               export function DELETE() {} export function PATCH() {} export const nextAuth = 1; export const helper = 1;";
    let g = build_graph(vec![file("app/api/route.ts", src), file("app/api/handlers.ts", src)]);
    let f = vec![facts("route.ts", "/r.ts", vec![]), facts("handlers.ts", "/h.ts", vec![])];
    let d = dead(&g, &f);
    assert_eq!(d[0], pair("app/api/route.ts", "helper"));
    assert_eq!(d.len(), 8);
    assert!(d[1..].iter().all(|(p, _)| p == "app/api/handlers.ts"));
}

#[test]
fn middleware_config_is_live() {
    let g = build_graph(vec![file("middleware.ts", "export const config = {}; export function middleware() {}"), file("x.ts", "export const config = 1;")]);
    let f = vec![facts("middleware.ts", "/m.ts", vec![]), facts("x.ts", "/x.ts", vec![])];
    assert_eq!(dead(&g, &f), vec![pair("middleware.ts", "middleware"), pair("x.ts", "config")]);
}

#[test]
fn page_file_exports() {
    let g = build_graph(vec![file("app/page.tsx", "export default function Page() {} export const helper = 1;")]);
    let f = vec![facts("page.tsx", "/page.tsx", vec![])];
    assert_eq!(dead(&g, &f), vec![pair("app/page.tsx", "helper")]);
}

#[test]
fn default_import_keeps_default_export_live() {
    let g = build_graph(vec![file("a.ts", "export const named = 1; export default named"), file("b.ts", "import A from './a'; import { named } from './a'")]);
    let f = vec![facts("a.ts", "/a.ts", vec![]), facts("b.ts", "/b.ts", vec![Some("/a.ts"), Some("/a.ts")])];
    assert!(dead(&g, &f).is_empty());
}

#[test]
fn exported_twice_reported_twice() {
    let g = build_graph(vec![file("a.ts", "export { x }; export { x }")]);
    let f = vec![facts("a.ts", "/a.ts", vec![])];
    assert_eq!(dead(&g, &f), vec![pair("a.ts", "x"), pair("a.ts", "x")]);
}

#[test]
fn file_with_lexer_error_is_left_out() {
    let g = build_graph(vec![file("a.ts", "export const x = 'oops"), file("b.ts", "export const y = 1")]);
    assert_eq!(g.len(), 1);
    assert_eq!(g.path(0), "b.ts");
}

#[test]
fn same_path_read_twice_replaces() {
    let g = build_graph(vec![file("a.ts", "export const x = 1"), file("b.ts", ""), file("a.ts", "export const y = 1")]);
    assert_eq!(g.len(), 2);
    assert_eq!(g.path(0), "a.ts");
    assert_eq!(g.exports(0)[0].names, vec!["y".to_string()]);
}

#[test]
fn graph_accessors() {
    let mut g = Graph::new();
    assert_eq!(g.len(), 0);
    g.add_source("m.ts".to_string(), "import { a } from './n'".chars().collect());
    assert_eq!(g.len(), 1);
    assert_eq!(g.imports(0)[0].source, "./n");
    assert!(g.exports(0).is_empty());
}

#[test]
fn analyzable_sources() {
    assert!(is_analyzable(&"import { a } from 'b'".chars().collect()));
    assert!(is_analyzable(&"'unterminated".chars().collect()));
    assert!(!is_analyzable(&"import { a, b".chars().collect()));
    assert!(!is_analyzable(&"import *".chars().collect()));
}

#[test]
fn alias_imports_come_from_the_root() {
    let p = plan_import("@/components/Button");
    assert!(matches!(p.base, ImportBase::ProjectRoot));
    assert_eq!(p.relative, "components/Button");
}

#[test]
fn relative_imports_come_from_the_importing_directory() {
    let p = plan_import("./Button");
    assert!(matches!(p.base, ImportBase::ImportingDirectory));
    assert_eq!(p.relative, "./Button");
    let q = plan_import("@");
    assert!(matches!(q.base, ImportBase::ImportingDirectory));
    assert_eq!(q.relative, "@");
}

#[test]
fn lookup_order_prefers_index_files() {
    let c = lookup_candidates();
    assert_eq!(c.len(), 8);
    assert!(matches!(c[0], Candidate::IndexFile("index.tsx")));
    assert!(matches!(c[3], Candidate::IndexFile("index.jsx")));
    assert!(matches!(c[4], Candidate::Extension("ts")));
    assert!(matches!(c[7], Candidate::Extension("jsx")));
}

#[test]
fn scan_skips_ignored_directories() {
    assert!(is_ignored_directory("node_modules"));
    assert!(is_ignored_directory(".git"));
    assert!(!is_ignored_directory("src"));
    let a = entry_action(true, Some("node_modules"), None);
    assert!(!a.descend && !a.collect);
    let b = entry_action(true, Some("components"), None);
    assert!(b.descend && !b.collect);
    let c = entry_action(true, None, None);
    assert!(c.descend);
}

#[test]
fn scan_collects_source_extensions() {
    assert!(is_source_extension("tsx"));
    assert!(!is_source_extension("css"));
    assert!(entry_action(false, Some("a.ts"), Some("ts")).collect);
    assert!(!entry_action(false, Some("a.md"), Some("md")).collect);
    let d = entry_action(true, Some("weird.js"), Some("js"));
    assert!(d.descend && d.collect);
}

#[test]
fn more_imports_never_more_dead() {
    let before = build_graph(vec![file("a.ts", "export const x = 1; export const y = 2;"), file("b.ts", "import { x } from './a'")]);
    let after = build_graph(vec![file("a.ts", "export const x = 1; export const y = 2;"), file("b.ts", "import { x } from './a'; import { y } from './a'")]);
    let f1 = vec![facts("a.ts", "/a.ts", vec![]), facts("b.ts", "/b.ts", vec![Some("/a.ts")])];
    let f2 = vec![facts("a.ts", "/a.ts", vec![]), facts("b.ts", "/b.ts", vec![Some("/a.ts"), Some("/a.ts")])];
    assert_eq!(dead(&before, &f1), vec![pair("a.ts", "y")]);
    assert!(dead(&after, &f2).is_empty());
}
