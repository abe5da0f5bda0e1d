//! The dependency graph of a project and the search for exports that nothing imports.
use vstd::prelude::*;
use crate::lexers::{lex, lines_fit, Lexer};
use crate::parser::{lemma_export_view, lemma_import_view, texts};
use crate::text::same_text;
use crate::file_scanner::source_extension;
use crate::parser::{
    exports_view, imports_view, parse_tokens, ExportModel, ExportStatement, ImportModel,
    ImportStatement, Parser,
};

verus! {

/// A source file of the project: its path and its characters.
pub struct SourceFile {
    pub path: String,
    pub text: Vec<char>,
}

/// A file of the graph as a value: its path and its statements.
pub struct NodeModel {
    pub path: Seq<char>,
    pub imports: Seq<ImportModel>,
    pub exports: Seq<ExportModel>,
}

struct Node {
    path: String,
    imports: Vec<ImportStatement>,
    exports: Vec<ExportStatement>,
}

impl Node {
    closed spec fn model(&self) -> NodeModel {
        NodeModel { path: self.path@, imports: imports_view(self.imports@), exports: exports_view(self.exports@) }
    }
}

/// The files of a project with their import and export statements, one node per path.
pub struct Graph {
    nodes: Vec<Node>,
}

impl View for Graph {
    type V = Seq<NodeModel>;

    closed spec fn view(&self) -> Seq<NodeModel> {
        nodes_view(self.nodes@)
    }
}

spec fn nodes_view(v: Seq<Node>) -> Seq<NodeModel> {
    v.map_values(|n: Node| n.model())
}

/// Whether the lexer and the parser can read `text` to the end without overflowing the line
/// counter or running past the end of the token stream.
pub open spec fn analyzable(text: Seq<char>) -> bool {
    &&& lines_fit(text)
    &&& (lex(text) matches Ok(ts) ==> parse_tokens(ts) is Some)
}

/// The first node at or after `i` whose path is `path`.
pub open spec fn find_path(nodes: Seq<NodeModel>, path: Seq<char>, i: int) -> Option<int>
    decreases nodes.len() - i,
{
    if i < 0 || i >= nodes.len() {
        None
    } else if nodes[i].path == path {
        Some(i)
    } else {
        find_path(nodes, path, i + 1)
    }
}

/// `nodes` with `node` in place of the node that has its path, or added at the end.
pub open spec fn insert_node(nodes: Seq<NodeModel>, node: NodeModel) -> Seq<NodeModel> {
    match find_path(nodes, node.path, 0) {
        Some(k) => nodes.update(k, node),
        None => nodes.push(node),
    }
}

/// `nodes` after reading the file `path` with text `text`: a file that the lexer rejects
/// is left out.
pub open spec fn with_file(nodes: Seq<NodeModel>, path: Seq<char>, text: Seq<char>) -> Seq<NodeModel> {
    match lex(text) {
        Err(_) => nodes,
        Ok(ts) => match parse_tokens(ts) {
            Some((is, es)) => insert_node(nodes, NodeModel { path: path, imports: is, exports: es }),
            None => nodes,
        },
    }
}

/// The nodes of the graph built from `files`, read in order.
pub open spec fn graph_of(files: Seq<(Seq<char>, Seq<char>)>) -> Seq<NodeModel>
    decreases files.len(),
{
    if files.len() == 0 {
        seq![]
    } else {
        let (path, text) = files.last();
        with_file(graph_of(files.drop_last()), path, text)
    }
}

/// The paths and texts of source files.
pub open spec fn files_view(files: Seq<SourceFile>) -> Seq<(Seq<char>, Seq<char>)> {
    files.map_values(|f: SourceFile| (f.path@, f.text@))
}

/// Whether `text` can be read to the end by the lexer and the parser.
pub fn is_analyzable(text: &Vec<char>) -> (b: bool)
    ensures
        b == analyzable(text@),
{
    let copy = text.clone();
    proof {
        assert(copy@ =~= text@);
    }
    let mut lexer = Lexer::new(copy);
    if !lexer.lines_fit() {
        return false;
    }
    match lexer.tokenize() {
        Err(_) => true,
        Ok(tokens) => {
            let mut parser = Parser::new(tokens);
            let r = parser.try_parse();
            r.is_some()
        },
    }
}

impl Graph {
    /// A graph with no files.
    pub fn new() -> (g: Self)
        ensures
            g@ == Seq::<NodeModel>::empty(),
    {
        let g = Graph { nodes: Vec::new() };
        proof {
            assert(g@ =~= Seq::<NodeModel>::empty());
        }
        g
    }

    /// The number of files.
    pub fn len(&self) -> (n: usize)
        ensures
            n == self@.len(),
    {
        self.nodes.len()
    }

    /// The path of the `i`-th file.
    pub fn path(&self, i: usize) -> (p: &String)
        requires
            i < self@.len(),
        ensures
            p@ == self@[i as int].path,
    {
        &self.nodes[i].path
    }

    /// The import statements of the `i`-th file.
    pub fn imports(&self, i: usize) -> (v: &Vec<ImportStatement>)
        requires
            i < self@.len(),
        ensures
            imports_view(v@) == self@[i as int].imports,
    {
        &self.nodes[i].imports
    }

    /// The export statements of the `i`-th file.
    pub fn exports(&self, i: usize) -> (v: &Vec<ExportStatement>)
        requires
            i < self@.len(),
        ensures
            exports_view(v@) == self@[i as int].exports,
    {
        &self.nodes[i].exports
    }

    #[verifier::type_invariant]
    closed spec fn one_node_per_path(&self) -> bool {
        distinct_paths(self@)
    }

    fn insert(&mut self, node: Node)
        ensures
            final(self)@ == insert_node(old(self)@, node.model()),
    {
        proof {
            use_type_invariant(&*self);
            lemma_insert_node_distinct(self@, node.model());
        }
        let ghost before = self@;
        let mut nodes: Vec<Node> = Vec::new();
        std::mem::swap(&mut nodes, &mut self.nodes);
        let mut k: usize = 0;
        let mut found = false;
        while k < nodes.len()
            invariant_except_break
                !found,
            invariant
                nodes_view(nodes@) == before,
                k <= nodes@.len(),
                before.len() == nodes@.len(),
                find_path(before, node.model().path, 0) == find_path(before, node.model().path, k as int),
            ensures
                nodes_view(nodes@) == before,
                found ==> k < nodes@.len() && find_path(before, node.model().path, 0) == Some(k as int),
                !found ==> find_path(before, node.model().path, 0) is None,
            decreases nodes.len() - k,
        {
            assert(nodes_view(nodes@)[k as int] == nodes@[k as int].model());
            if nodes[k].path == node.path {
                found = true;
                break;
            }
            k = k + 1;
        }
        if found {
            nodes.set(k, node);
            proof {
                assert(nodes_view(nodes@) =~= before.update(k as int, node.model()));
            }
        } else {
            nodes.push(node);
            proof {
                assert(nodes_view(nodes@) =~= before.push(node.model()));
            }
        }
        self.nodes = nodes;
    }

    /// Reads the file `path` with text `text` into the graph; a file that the lexer rejects
    /// is left out, and a file read before under the same path is replaced.
    pub fn add_source(&mut self, path: String, text: Vec<char>)
        requires
            analyzable(text@),
        ensures
            final(self)@ == with_file(old(self)@, path@, text@),
            distinct_paths(final(self)@),
    {
        proof {
            use_type_invariant(&*self);
            lemma_with_file_distinct(self@, path@, text@);
        }
        let mut lexer = Lexer::new(text);
        match lexer.tokenize() {
            Err(_) => {},
            Ok(tokens) => {
                let mut parser = Parser::new(tokens);
                let (imports, exports) = parser.parse();
                self.insert(Node { path, imports, exports });
            },
        }
    }
}

/// Builds the graph of `files`, read in order.
pub fn build_graph(files: Vec<SourceFile>) -> (g: Graph)
    requires
        forall|i: int| 0 <= i < files@.len() ==> analyzable(#[trigger] files@[i].text@),
    ensures
        g@ == graph_of(files_view(files@)),
        distinct_paths(g@),
{
    let mut g = Graph::new();
    let mut files = files;
    let ghost all = files_view(files@);
    let n = files.len();
    let mut done: usize = 0;
    proof {
        assert(all.skip(0) =~= all);
        assert(all.take(0) =~= Seq::<(Seq<char>, Seq<char>)>::empty());
    }
    while files.len() > 0
        invariant
            n as int == all.len(),
            done <= n,
            files_view(files@) == all.skip(done as int),
            forall|i: int| 0 <= i < files@.len() ==> analyzable(#[trigger] files@[i].text@),
            g@ == graph_of(all.take(done as int)),
        decreases files.len(),
    {
        let ghost before = files@;
        let f = files.remove(0);
        proof {
            assert(files@ =~= before.skip(1));
            assert(files_view(before).len() == before.len());
            assert(files_view(files@).len() == files@.len());
            assert(done < n);
            assert forall|i: int| 0 <= i < files@.len() implies #[trigger] files_view(files@)[i] == all.skip(done + 1)[i] by {
                assert(files@[i] == before[i + 1]);
                assert(files_view(before)[i + 1] == all.skip(done as int)[i + 1]);
            }
            assert(files_view(files@) =~= all.skip(done + 1));
            assert(analyzable(before[0].text@));
            assert(all.take(done + 1).drop_last() =~= all.take(done as int));
            assert(all.take(done + 1).last() == files_view(before)[0]);
        }
        g.add_source(f.path, f.text);
        done = done + 1;
    }
    proof {
        assert(all.take(n as int) =~= all);
        law_graph_paths_distinct(all);
    }
    g
}

// ---------------------------------------------------------------------------
// Dead exports.
// ---------------------------------------------------------------------------

/// What was found on disk about one file of the graph: its file name, its canonical path,
/// and, for each of its import statements in order, the canonical path of the module it
/// resolves to.
pub struct FileFacts {
    pub file_name: Option<String>,
    pub canonical: Option<String>,
    pub resolved_imports: Vec<Option<String>>,
}

/// The text of an optional string.
pub open spec fn opt_text(o: Option<String>) -> Option<Seq<char>> {
    match o {
        Some(s) => Some(s@),
        None => None,
    }
}

/// `FileFacts` as a value.
pub struct FactsModel {
    pub file_name: Option<Seq<char>>,
    pub canonical: Option<Seq<char>>,
    pub resolved: Seq<Option<Seq<char>>>,
}

impl View for FileFacts {
    type V = FactsModel;

    open spec fn view(&self) -> FactsModel {
        FactsModel {
            file_name: opt_text(self.file_name),
            canonical: opt_text(self.canonical),
            resolved: self.resolved_imports@.map_values(|o: Option<String>| opt_text(o)),
        }
    }
}

/// The views of a sequence of facts.
pub open spec fn facts_view(v: Seq<FileFacts>) -> Seq<FactsModel> {
    v.map_values(|f: FileFacts| f@)
}

/// The facts describe the nodes one for one, with one resolution per import statement.
pub open spec fn facts_match(nodes: Seq<NodeModel>, facts: Seq<FactsModel>) -> bool {
    &&& facts.len() == nodes.len()
    &&& forall|i: int| 0 <= i < nodes.len() ==> (#[trigger] facts[i]).resolved.len() == nodes[i].imports.len()
}

/// Whether some file imports `name` from the module whose canonical path is `target`.
pub open spec fn imported(nodes: Seq<NodeModel>, facts: Seq<FactsModel>, target: Seq<char>, name: Seq<char>) -> bool {
    exists|i: int, j: int|
        0 <= i < nodes.len() && 0 <= j < nodes[i].imports.len() && #[trigger] facts[i].resolved[j] == Some(target)
            && #[trigger] nodes[i].imports[j].names.contains(name)
}

/// Export names that Next.js itself uses in any file.
pub open spec fn framework_name(n: Seq<char>) -> bool {
    n == "metadata"@ || n == "dynamic"@ || n == "revalidate"@ || n == "generateStaticParams"@
        || n == "generateMetadata"@ || n == "default"@
}

/// Request handlers that Next.js calls in a `route.ts` file.
pub open spec fn route_handler_name(n: Seq<char>) -> bool {
    n == "GET"@ || n == "POST"@ || n == "PUT"@ || n == "DELETE"@ || n == "PATCH"@ || n == "nextAuth"@
}

/// Whether the framework uses the export `n` of a file named `file_name`, so that it is live
/// without being imported.
pub open spec fn used_by_framework(file_name: Option<Seq<char>>, n: Seq<char>) -> bool {
    ||| framework_name(n)
    ||| file_name == Some("route.ts"@) && route_handler_name(n)
    ||| file_name == Some("middleware.ts"@) && n == "config"@
}

/// Whether the export `n` of the `i`-th file is dead: the framework does not use it, the
/// file has a canonical path, and no file imports `n` from that path.
pub open spec fn is_dead(nodes: Seq<NodeModel>, facts: Seq<FactsModel>, i: int, n: Seq<char>) -> bool {
    &&& !used_by_framework(facts[i].file_name, n)
    &&& facts[i].canonical is Some
    &&& !imported(nodes, facts, facts[i].canonical->0, n)
}

/// The dead exports among `names` of the `i`-th file, in order.
pub open spec fn dead_in_names(nodes: Seq<NodeModel>, facts: Seq<FactsModel>, i: int, names: Seq<Seq<char>>) -> Seq<(Seq<char>, Seq<char>)>
    decreases names.len(),
{
    if names.len() == 0 {
        seq![]
    } else {
        dead_in_names(nodes, facts, i, names.drop_last()) + if is_dead(nodes, facts, i, names.last()) {
            seq![(nodes[i].path, names.last())]
        } else {
            seq![]
        }
    }
}

/// The dead exports of the export statements `es` of the `i`-th file, in order.
pub open spec fn dead_in_exports(nodes: Seq<NodeModel>, facts: Seq<FactsModel>, i: int, es: Seq<ExportModel>) -> Seq<(Seq<char>, Seq<char>)>
    decreases es.len(),
{
    if es.len() == 0 {
        seq![]
    } else {
        dead_in_exports(nodes, facts, i, es.drop_last()) + dead_in_names(nodes, facts, i, es.last().names)
    }
}

/// The dead exports of the first `upto` files, in order.
pub open spec fn dead_in_nodes(nodes: Seq<NodeModel>, facts: Seq<FactsModel>, upto: int) -> Seq<(Seq<char>, Seq<char>)>
    decreases upto,
{
    if upto <= 0 {
        seq![]
    } else {
        dead_in_nodes(nodes, facts, upto - 1) + dead_in_exports(nodes, facts, upto - 1, nodes[upto - 1].exports)
    }
}

/// Every dead export of the graph, as (path of the file, name), file by file and statement
/// by statement; a name exported twice is listed twice.
pub open spec fn dead_exports(nodes: Seq<NodeModel>, facts: Seq<FactsModel>) -> Seq<(Seq<char>, Seq<char>)> {
    dead_in_nodes(nodes, facts, nodes.len() as int)
}

/// The (module, name) pairs that the import statements `imports` bring in, given the
/// modules they resolve to.
pub open spec fn pairs_of_imports(imports: Seq<ImportModel>, resolved: Seq<Option<Seq<char>>>) -> Seq<(Seq<char>, Seq<char>)>
    decreases imports.len(),
{
    if imports.len() == 0 {
        seq![]
    } else {
        pairs_of_imports(imports.drop_last(), resolved) + match resolved[imports.len() - 1] {
            Some(t) => imports.last().names.map_values(|n: Seq<char>| (t, n)),
            None => seq![],
        }
    }
}

/// The (module, name) pairs that the first `upto` files import.
pub open spec fn import_pairs(nodes: Seq<NodeModel>, facts: Seq<FactsModel>, upto: int) -> Seq<(Seq<char>, Seq<char>)>
    decreases upto,
{
    if upto <= 0 {
        seq![]
    } else {
        import_pairs(nodes, facts, upto - 1) + pairs_of_imports(nodes[upto - 1].imports, facts[upto - 1].resolved)
    }
}

/// The texts of pairs of strings.
pub open spec fn pair_texts(v: Seq<(String, String)>) -> Seq<(Seq<char>, Seq<char>)> {
    v.map_values(|p: (String, String)| (p.0@, p.1@))
}

proof fn lemma_concat_contains<A>(a: Seq<A>, b: Seq<A>, x: A)
    ensures
        (a + b).contains(x) <==> a.contains(x) || b.contains(x),
{
    if (a + b).contains(x) {
        let k = choose|k: int| 0 <= k < (a + b).len() && (a + b)[k] == x;
        if k < a.len() {
            assert(a[k] == x);
        } else {
            assert(b[k - a.len()] == x);
        }
    }
    if a.contains(x) {
        let k = choose|k: int| 0 <= k < a.len() && a[k] == x;
        assert((a + b)[k] == x);
    }
    if b.contains(x) {
        let k = choose|k: int| 0 <= k < b.len() && b[k] == x;
        assert((a + b)[k + a.len()] == x);
    }
}

proof fn lemma_pairs_of_imports(imports: Seq<ImportModel>, resolved: Seq<Option<Seq<char>>>, t: Seq<char>, n: Seq<char>)
    requires
        resolved.len() >= imports.len(),
    ensures
        pairs_of_imports(imports, resolved).contains((t, n)) <==> exists|j: int|
            0 <= j < imports.len() && #[trigger] resolved[j] == Some(t) && #[trigger] imports[j].names.contains(n),
    decreases imports.len(),
{
    if imports.len() > 0 {
        let init = imports.drop_last();
        let j0 = imports.len() - 1;
        lemma_pairs_of_imports(init, resolved, t, n);
        let tail = match resolved[j0] {
            Some(tt) => imports.last().names.map_values(|m: Seq<char>| (tt, m)),
            None => seq![],
        };
        lemma_concat_contains(pairs_of_imports(init, resolved), tail, (t, n));
        if tail.contains((t, n)) {
            let k = choose|k: int| 0 <= k < tail.len() && tail[k] == (t, n);
            assert(imports[j0].names[k] == n);
            assert(imports[j0].names.contains(n));
        }
        if resolved[j0] == Some(t) && imports[j0].names.contains(n) {
            let k = choose|k: int| 0 <= k < imports[j0].names.len() && imports[j0].names[k] == n;
            assert(tail[k] == (t, n));
        }
        if exists|j: int| 0 <= j < imports.len() && #[trigger] resolved[j] == Some(t) && #[trigger] imports[j].names.contains(n) {
            let j = choose|j: int| 0 <= j < imports.len() && #[trigger] resolved[j] == Some(t) && #[trigger] imports[j].names.contains(n);
            if j < j0 {
                assert(init[j] == imports[j]);
            }
        }
        if exists|j: int| 0 <= j < init.len() && #[trigger] resolved[j] == Some(t) && #[trigger] init[j].names.contains(n) {
            let j = choose|j: int| 0 <= j < init.len() && #[trigger] resolved[j] == Some(t) && #[trigger] init[j].names.contains(n);
            assert(init[j] == imports[j]);
        }
    }
}

/// The pairs gathered from the first `upto` files are exactly what those files import.
proof fn lemma_import_pairs(nodes: Seq<NodeModel>, facts: Seq<FactsModel>, upto: int, t: Seq<char>, n: Seq<char>)
    requires
        facts_match(nodes, facts),
        0 <= upto <= nodes.len(),
    ensures
        import_pairs(nodes, facts, upto).contains((t, n)) <==> exists|i: int, j: int|
            0 <= i < upto && 0 <= j < nodes[i].imports.len() && #[trigger] facts[i].resolved[j] == Some(t)
                && #[trigger] nodes[i].imports[j].names.contains(n),
    decreases upto,
{
    if upto > 0 {
        let i0 = upto - 1;
        lemma_import_pairs(nodes, facts, i0, t, n);
        assert(facts[i0].resolved.len() == nodes[i0].imports.len());
        lemma_pairs_of_imports(nodes[i0].imports, facts[i0].resolved, t, n);
        lemma_concat_contains(import_pairs(nodes, facts, i0), pairs_of_imports(nodes[i0].imports, facts[i0].resolved), (t, n));
    }
}

/// The (module, name) pairs that the files of the graph import.
fn collect_imports(graph: &Graph, facts: &Vec<FileFacts>) -> (pairs: Vec<(String, String)>)
    requires
        facts_match(graph@, facts_view(facts@)),
    ensures
        pair_texts(pairs@) == import_pairs(graph@, facts_view(facts@), graph@.len() as int),
{
    let ghost nodes = graph@;
    let ghost fs = facts_view(facts@);
    let mut pairs: Vec<(String, String)> = Vec::new();
    let mut i: usize = 0;
    proof {
        assert(pair_texts(pairs@) =~= Seq::<(Seq<char>, Seq<char>)>::empty());
    }
    while i < graph.nodes.len()
        invariant
            nodes == graph@,
            fs == facts_view(facts@),
            facts_match(nodes, fs),
            i <= nodes.len(),
            nodes.len() == graph.nodes@.len(),
            pair_texts(pairs@) == import_pairs(nodes, fs, i as int),
        decreases graph.nodes.len() - i,
    {
        let node = &graph.nodes[i];
        let fact = &facts[i];
        assert(nodes[i as int] == node.model());
        assert(fs[i as int] == fact@);
        let ghost base = pair_texts(pairs@);
        let mut j: usize = 0;
        while j < node.imports.len()
            invariant
                nodes == graph@,
                fs == facts_view(facts@),
                facts_match(nodes, fs),
                i < nodes.len(),
                nodes.len() == graph.nodes@.len(),
                node == &graph.nodes@[i as int],
                fact == &facts@[i as int],
                nodes[i as int] == node.model(),
                fs[i as int] == fact@,
                j <= node.imports@.len(),
                pair_texts(pairs@) == base + pairs_of_imports(nodes[i as int].imports.take(j as int), fs[i as int].resolved),
            decreases node.imports.len() - j,
        {
            let stmt = &node.imports[j];
            proof {
                lemma_import_view(*stmt);
                assert(imports_view(node.imports@)[j as int] == stmt@);
                assert(fact@.resolved.len() == node.imports@.len());
                assert(fact.resolved_imports@.len() == fact@.resolved.len());
            }
            let ghost before = pair_texts(pairs@);
            let ghost imps = nodes[i as int].imports;
            if let Some(target) = &fact.resolved_imports[j] {
                assert(fact@.resolved[j as int] == Some(target@));
                let mut k: usize = 0;
                while k < stmt.names.len()
                    invariant
                        k <= stmt.names@.len(),
                        pair_texts(pairs@) == before + texts(stmt.names@).take(k as int).map_values(|n: Seq<char>| (target@, n)),
                    decreases stmt.names.len() - k,
                {
                    let ghost prev = pairs@;
                    pairs.push((target.clone(), stmt.names[k].clone()));
                    proof {
                        assert(pair_texts(pairs@) =~= pair_texts(prev).push((target@, stmt.names@[k as int]@)));
                        assert(texts(stmt.names@).take(k + 1).map_values(|n: Seq<char>| (target@, n)) =~=
                            texts(stmt.names@).take(k as int).map_values(|n: Seq<char>| (target@, n)).push((target@, stmt.names@[k as int]@)));
                    }
                    k = k + 1;
                }
                proof {
                    assert(texts(stmt.names@).take(stmt.names@.len() as int) =~= texts(stmt.names@));
                }
            } else {
                assert(fact@.resolved[j as int] == None::<Seq<char>>);
            }
            proof {
                assert(imps.take(j + 1).drop_last() =~= imps.take(j as int));
                assert(imps.take(j + 1).last() == stmt@);
                assert(imps.take(j + 1).len() - 1 == j);
            }
            j = j + 1;
        }
        proof {
            assert(nodes[i as int].imports.take(node.imports@.len() as int) =~= nodes[i as int].imports);
        }
        i = i + 1;
    }
    pairs
}

/// Whether `(target, name)` is among `pairs`.
fn contains_pair(pairs: &Vec<(String, String)>, target: &String, name: &String) -> (b: bool)
    ensures
        b == pair_texts(pairs@).contains((target@, name@)),
{
    let mut k: usize = 0;
    while k < pairs.len()
        invariant
            k <= pairs@.len(),
            forall|m: int| 0 <= m < k ==> pair_texts(pairs@)[m] != (target@, name@),
        decreases pairs.len() - k,
    {
        if pairs[k].0 == *target && pairs[k].1 == *name {
            assert(pair_texts(pairs@)[k as int] == (target@, name@));
            return true;
        }
        k = k + 1;
    }
    false
}

/// Whether `name` is one of the names Next.js uses in any file.
fn is_framework_name(name: &String) -> (b: bool)
    ensures
        b == framework_name(name@),
{
    same_text(name.as_str(), "metadata") || same_text(name.as_str(), "dynamic") || same_text(name.as_str(), "revalidate")
        || same_text(name.as_str(), "generateStaticParams") || same_text(name.as_str(), "generateMetadata")
        || same_text(name.as_str(), "default")
}

/// Whether `file_name` is `wanted`.
fn file_name_is(file_name: &Option<String>, wanted: &str) -> (b: bool)
    ensures
        b == (opt_text(*file_name) == Some(wanted@)),
{
    match file_name {
        Some(n) => same_text(n.as_str(), wanted),
        None => false,
    }
}

/// Files that Next.js routes to.
pub open spec fn framework_file(file_name: Option<Seq<char>>) -> bool {
    file_name == Some("page.tsx"@) || file_name == Some("layout.tsx"@) || file_name == Some("not-found.tsx"@)
        || file_name == Some("loading.tsx"@) || file_name == Some("error.tsx"@)
}

/// Whether `file_name` names one of the files that Next.js routes to.
fn is_framework_file(file_name: &Option<String>) -> (b: bool)
    ensures
        b == framework_file(opt_text(*file_name)),
{
    file_name_is(file_name, "page.tsx") || file_name_is(file_name, "layout.tsx")
        || file_name_is(file_name, "not-found.tsx") || file_name_is(file_name, "loading.tsx")
        || file_name_is(file_name, "error.tsx")
}

/// Whether `name` is a request handler of a route file.
fn is_route_handler(name: &String) -> (b: bool)
    ensures
        b == route_handler_name(name@),
{
    same_text(name.as_str(), "GET") || same_text(name.as_str(), "POST") || same_text(name.as_str(), "PUT") || same_text(name.as_str(), "DELETE")
        || same_text(name.as_str(), "PATCH") || same_text(name.as_str(), "nextAuth")
}

/// Where an import's path is taken from.
pub enum ImportBase {
    /// The project root, for a path written with the `@/` alias.
    ProjectRoot,
    /// The directory of the importing file.
    ImportingDirectory,
}

/// How to look up the module an import names: a base directory and a path relative to it.
pub struct ImportPlan {
    pub base: ImportBase,
    pub relative: String,
}

/// The alias that stands for the project root.
pub open spec fn root_alias() -> Seq<char> {
    seq!['@', '/']
}

/// Splits the module path of an import into its base and its relative part: a path that
/// starts with `@/` is taken from the project root, without the alias; any other from the
/// directory of the importing file.
pub fn plan_import(source: &str) -> (p: ImportPlan)
    ensures
        source@.len() >= 2 && source@.take(2) == root_alias() ==> p.base is ProjectRoot && p.relative@ == source@.skip(2),
        !(source@.len() >= 2 && source@.take(2) == root_alias()) ==> p.base is ImportingDirectory && p.relative@ == source@,
{
    let n = source.unicode_len();
    if n >= 2 && source.get_char(0) == '@' && source.get_char(1) == '/' {
        proof {
            assert(source@.take(2) =~= root_alias());
        }
        let rest = source.substring_char(2, n);
        proof {
            assert(source@.subrange(2, n as int) =~= source@.skip(2));
        }
        ImportPlan { base: ImportBase::ProjectRoot, relative: String::from_str(rest) }
    } else {
        proof {
            if source@.len() >= 2 && source@.take(2) == root_alias() {
                assert(source@.take(2)[0] == '@');
                assert(source@.take(2)[1] == '/');
            }
        }
        ImportPlan { base: ImportBase::ImportingDirectory, relative: String::from_str(source) }
    }
}

/// A path to try for an import: the base path joined with an index file name, or the base
/// path with its extension set.
pub enum Candidate {
    IndexFile(&'static str),
    Extension(&'static str),
}

/// A candidate as a value.
pub enum CandidateModel {
    IndexFile(Seq<char>),
    Extension(Seq<char>),
}

impl View for Candidate {
    type V = CandidateModel;

    open spec fn view(&self) -> CandidateModel {
        match self {
            Candidate::IndexFile(f) => CandidateModel::IndexFile(f@),
            Candidate::Extension(e) => CandidateModel::Extension(e@),
        }
    }
}

/// The order in which an import is looked up: a directory's index files first, then the
/// path itself with each source extension.
pub open spec fn lookup_order() -> Seq<CandidateModel> {
    seq![
        CandidateModel::IndexFile("index.tsx"@),
        CandidateModel::IndexFile("index.ts"@),
        CandidateModel::IndexFile("index.js"@),
        CandidateModel::IndexFile("index.jsx"@),
        CandidateModel::Extension("ts"@),
        CandidateModel::Extension("tsx"@),
        CandidateModel::Extension("js"@),
        CandidateModel::Extension("jsx"@),
    ]
}

/// The paths to try for an import, in order; the first that exists on disk is the module.
pub fn lookup_candidates() -> (v: Vec<Candidate>)
    ensures
        v@.map_values(|c: Candidate| c@) == lookup_order(),
{
    let v = vec![
        Candidate::IndexFile("index.tsx"),
        Candidate::IndexFile("index.ts"),
        Candidate::IndexFile("index.js"),
        Candidate::IndexFile("index.jsx"),
        Candidate::Extension("ts"),
        Candidate::Extension("tsx"),
        Candidate::Extension("js"),
        Candidate::Extension("jsx"),
    ];
    proof {
        assert(v@.map_values(|c: Candidate| c@) =~= lookup_order());
    }
    v
}

/// Lists the exports of the graph that no file imports and the framework does not use.
/// `facts[i]` describes the `i`-th file of the graph: a file without a canonical path has
/// no dead exports, and an import counts for the module its statement resolved to.
pub fn find_dead_exports(graph: &Graph, facts: &Vec<FileFacts>) -> (dead: Vec<(String, String)>)
    requires
        facts_match(graph@, facts_view(facts@)),
    ensures
        pair_texts(dead@) == dead_exports(graph@, facts_view(facts@)),
{
    let ghost nodes = graph@;
    let ghost fs = facts_view(facts@);
    let import_set = collect_imports(graph, facts);
    let mut dead: Vec<(String, String)> = Vec::new();
    proof {
        assert(pair_texts(dead@) =~= Seq::<(Seq<char>, Seq<char>)>::empty());
    }
    let mut i: usize = 0;
    while i < graph.nodes.len()
        invariant
            nodes == graph@,
            fs == facts_view(facts@),
            facts_match(nodes, fs),
            i <= nodes.len(),
            nodes.len() == graph.nodes@.len(),
            pair_texts(import_set@) == import_pairs(nodes, fs, nodes.len() as int),
            pair_texts(dead@) == dead_in_nodes(nodes, fs, i as int),
        decreases graph.nodes.len() - i,
    {
        let node = &graph.nodes[i];
        let fact = &facts[i];
        assert(nodes[i as int] == node.model());
        assert(fs[i as int] == fact@);
        let ghost base = pair_texts(dead@);
        let mut e: usize = 0;
        while e < node.exports.len()
            invariant
                nodes == graph@,
                fs == facts_view(facts@),
                facts_match(nodes, fs),
                i < nodes.len(),
                nodes.len() == graph.nodes@.len(),
                node == &graph.nodes@[i as int],
                fact == &facts@[i as int],
                nodes[i as int] == node.model(),
                fs[i as int] == fact@,
                pair_texts(import_set@) == import_pairs(nodes, fs, nodes.len() as int),
                e <= node.exports@.len(),
                pair_texts(dead@) == base + dead_in_exports(nodes, fs, i as int, nodes[i as int].exports.take(e as int)),
            decreases node.exports.len() - e,
        {
            let stmt = &node.exports[e];
            proof {
                lemma_export_view(*stmt);
                assert(exports_view(node.exports@)[e as int] == stmt@);
            }
            let ghost before = pair_texts(dead@);
            let is_match_file = is_framework_file(&fact.file_name);
            let mut k: usize = 0;
            while k < stmt.names.len()
                invariant
                    nodes == graph@,
                    fs == facts_view(facts@),
                    facts_match(nodes, fs),
                    i < nodes.len(),
                    node == &graph.nodes@[i as int],
                    fact == &facts@[i as int],
                    nodes[i as int] == node.model(),
                    fs[i as int] == fact@,
                    pair_texts(import_set@) == import_pairs(nodes, fs, nodes.len() as int),
                    k <= stmt.names@.len(),
                    pair_texts(dead@) == before + dead_in_names(nodes, fs, i as int, texts(stmt.names@).take(k as int)),
                decreases stmt.names.len() - k,
            {
                let name = &stmt.names[k];
                let ghost n = name@;
                let ghost names_k1 = texts(stmt.names@).take(k + 1);
                proof {
                    assert(names_k1.drop_last() =~= texts(stmt.names@).take(k as int));
                    assert(names_k1.last() == n);
                }
                let is_match_file_name_exports = is_framework_name(name);
                let is_route_file = file_name_is(&fact.file_name, "route.ts");
                let is_middleware_file = file_name_is(&fact.file_name, "middleware.ts");
                let live = if is_match_file_name_exports {
                    true
                } else if is_route_file && is_route_handler(name) {
                    true
                } else if is_middleware_file && same_text(name.as_str(), "config") {
                    true
                } else if is_match_file && is_framework_name(name) {
                    true
                } else {
                    false
                };
                if !live {
                    if let Some(canonical) = &fact.canonical {
                        proof {
                            lemma_import_pairs(nodes, fs, nodes.len() as int, canonical@, n);
                        }
                        if !contains_pair(&import_set, canonical, name) {
                            let ghost prev = dead@;
                            dead.push((node.path.clone(), name.clone()));
                            proof {
                                assert(pair_texts(dead@) =~= pair_texts(prev).push((node.path@, n)));
                            }
                        }
                    }
                }
                proof {
                    assert(live == used_by_framework(fs[i as int].file_name, n));
                    let d = dead_in_names(nodes, fs, i as int, names_k1);
                    let d0 = dead_in_names(nodes, fs, i as int, names_k1.drop_last());
                    if is_dead(nodes, fs, i as int, n) {
                        assert(d == d0 + seq![(nodes[i as int].path, n)]);
                        assert(before + d0 + seq![(nodes[i as int].path, n)] =~= before + d);
                    } else {
                        assert(d =~= d0 + seq![]);
                        assert(d =~= d0);
                    }
                }
                k = k + 1;
            }
            proof {
                let es = nodes[i as int].exports;
                assert(texts(stmt.names@).take(stmt.names@.len() as int) =~= texts(stmt.names@));
                assert(es.take(e + 1).drop_last() =~= es.take(e as int));
                assert(es.take(e + 1).last() == stmt@);
                assert(before + dead_in_names(nodes, fs, i as int, stmt@.names) =~= base + dead_in_exports(nodes, fs, i as int, es.take(e + 1)));
            }
            e = e + 1;
        }
        proof {
            assert(nodes[i as int].exports.take(node.exports@.len() as int) =~= nodes[i as int].exports);
        }
        i = i + 1;
    }
    dead
}

// ---------------------------------------------------------------------------
// Laws of the analysis.
// ---------------------------------------------------------------------------

proof fn lemma_dead_in_names(nodes: Seq<NodeModel>, facts: Seq<FactsModel>, i: int, names: Seq<Seq<char>>, x: (Seq<char>, Seq<char>))
    ensures
        dead_in_names(nodes, facts, i, names).contains(x) <==> (x.0 == nodes[i].path && names.contains(x.1)
            && is_dead(nodes, facts, i, x.1)),
    decreases names.len(),
{
    if names.len() > 0 {
        let init = names.drop_last();
        lemma_dead_in_names(nodes, facts, i, init, x);
        let tail = if is_dead(nodes, facts, i, names.last()) { seq![(nodes[i].path, names.last())] } else { seq![] };
        lemma_concat_contains(dead_in_names(nodes, facts, i, init), tail, x);
        if tail.contains(x) {
            assert(tail[0] == x);
            assert(names[names.len() - 1] == x.1);
        }
        if names.contains(x.1) {
            let k = choose|k: int| 0 <= k < names.len() && names[k] == x.1;
            if k < names.len() - 1 {
                assert(init[k] == x.1);
            } else if x.0 == nodes[i].path && is_dead(nodes, facts, i, x.1) {
                assert(tail[0] == x);
            }
        }
        if init.contains(x.1) {
            let k = choose|k: int| 0 <= k < init.len() && init[k] == x.1;
            assert(names[k] == x.1);
        }
    }
}

proof fn lemma_dead_in_exports(nodes: Seq<NodeModel>, facts: Seq<FactsModel>, i: int, es: Seq<ExportModel>, x: (Seq<char>, Seq<char>))
    ensures
        dead_in_exports(nodes, facts, i, es).contains(x) <==> exists|e: int|
            0 <= e < es.len() && x.0 == nodes[i].path && (#[trigger] es[e]).names.contains(x.1) && is_dead(nodes, facts, i, x.1),
    decreases es.len(),
{
    if es.len() > 0 {
        let init = es.drop_last();
        let e0 = es.len() - 1;
        lemma_dead_in_exports(nodes, facts, i, init, x);
        lemma_dead_in_names(nodes, facts, i, es.last().names, x);
        lemma_concat_contains(dead_in_exports(nodes, facts, i, init), dead_in_names(nodes, facts, i, es.last().names), x);
        if exists|e: int| 0 <= e < es.len() && x.0 == nodes[i].path && (#[trigger] es[e]).names.contains(x.1) && is_dead(nodes, facts, i, x.1) {
            let e = choose|e: int| 0 <= e < es.len() && x.0 == nodes[i].path && (#[trigger] es[e]).names.contains(x.1) && is_dead(nodes, facts, i, x.1);
            if e < e0 {
                assert(init[e] == es[e]);
            }
        }
        if exists|e: int| 0 <= e < init.len() && x.0 == nodes[i].path && (#[trigger] init[e]).names.contains(x.1) && is_dead(nodes, facts, i, x.1) {
            let e = choose|e: int| 0 <= e < init.len() && x.0 == nodes[i].path && (#[trigger] init[e]).names.contains(x.1) && is_dead(nodes, facts, i, x.1);
            assert(init[e] == es[e]);
        }
    }
}

proof fn lemma_dead_in_nodes(nodes: Seq<NodeModel>, facts: Seq<FactsModel>, upto: int, x: (Seq<char>, Seq<char>))
    requires
        0 <= upto <= nodes.len(),
    ensures
        dead_in_nodes(nodes, facts, upto).contains(x) <==> exists|i: int, e: int|
            0 <= i < upto && 0 <= e < nodes[i].exports.len() && x.0 == nodes[i].path
                && (#[trigger] nodes[i].exports[e]).names.contains(x.1) && is_dead(nodes, facts, i, x.1),
    decreases upto,
{
    if upto > 0 {
        let i0 = upto - 1;
        lemma_dead_in_nodes(nodes, facts, i0, x);
        lemma_dead_in_exports(nodes, facts, i0, nodes[i0].exports, x);
        lemma_concat_contains(dead_in_nodes(nodes, facts, i0), dead_in_exports(nodes, facts, i0, nodes[i0].exports), x);
    }
}

/// An export is reported exactly when it is dead: `(path, name)` is listed if and only if
/// some export statement of a file with that path names `name`, the framework does not use
/// it there, the file has a canonical path, and no file imports `name` from that path.
pub proof fn law_dead_exports_exact(nodes: Seq<NodeModel>, facts: Seq<FactsModel>, path: Seq<char>, name: Seq<char>)
    requires
        facts_match(nodes, facts),
    ensures
        dead_exports(nodes, facts).contains((path, name)) <==> exists|i: int, e: int|
            0 <= i < nodes.len() && 0 <= e < nodes[i].exports.len() && path == nodes[i].path
                && (#[trigger] nodes[i].exports[e]).names.contains(name) && {
                    &&& !used_by_framework(facts[i].file_name, name)
                    &&& facts[i].canonical matches Some(c) && !exists|i2: int, j: int|
                        0 <= i2 < nodes.len() && 0 <= j < nodes[i2].imports.len() && #[trigger] facts[i2].resolved[j] == Some(c)
                            && #[trigger] nodes[i2].imports[j].names.contains(name)
                },
{
    lemma_dead_in_nodes(nodes, facts, nodes.len() as int, (path, name));
}

/// Names that Next.js uses are never reported, in any file; neither are the request
/// handlers of a `route.ts` file nor the `config` of a `middleware.ts` file.
pub proof fn law_framework_exports_live(nodes: Seq<NodeModel>, facts: Seq<FactsModel>, i: int, name: Seq<char>)
    requires
        facts_match(nodes, facts),
        distinct_paths(nodes),
        0 <= i < nodes.len(),
        used_by_framework(facts[i].file_name, name),
    ensures
        !dead_exports(nodes, facts).contains((nodes[i].path, name)),
        framework_name(name) ==> forall|p: Seq<char>| !(#[trigger] dead_exports(nodes, facts).contains((p, name))),
{
    lemma_dead_in_nodes(nodes, facts, nodes.len() as int, (nodes[i].path, name));
    assert forall|p: Seq<char>| framework_name(name) implies !(#[trigger] dead_exports(nodes, facts).contains((p, name))) by {
        lemma_dead_in_nodes(nodes, facts, nodes.len() as int, (p, name));
    }
}

/// A default export is never reported.
pub proof fn law_default_exports_live(nodes: Seq<NodeModel>, facts: Seq<FactsModel>, p: Seq<char>)
    requires
        facts_match(nodes, facts),
    ensures
        !dead_exports(nodes, facts).contains((p, crate::parser::default_name())),
{
    reveal_strlit("default");
    assert("default"@ =~= crate::parser::default_name());
    lemma_dead_in_nodes(nodes, facts, nodes.len() as int, (p, crate::parser::default_name()));
}

/// An export that some file imports from the exporting file's canonical path is never
/// reported for that file.
pub proof fn law_imported_exports_live(nodes: Seq<NodeModel>, facts: Seq<FactsModel>, i: int, name: Seq<char>)
    requires
        facts_match(nodes, facts),
        0 <= i < nodes.len(),
        distinct_paths(nodes),
        facts[i].canonical matches Some(c) && imported(nodes, facts, c, name),
    ensures
        !dead_exports(nodes, facts).contains((nodes[i].path, name)),
{
    lemma_dead_in_nodes(nodes, facts, nodes.len() as int, (nodes[i].path, name));
}

/// No two nodes share a path.
pub open spec fn distinct_paths(nodes: Seq<NodeModel>) -> bool {
    forall|a: int, b: int| 0 <= a < b < nodes.len() ==> (#[trigger] nodes[a]).path != (#[trigger] nodes[b]).path
}

proof fn lemma_find_path(nodes: Seq<NodeModel>, path: Seq<char>, i: int)
    requires
        0 <= i,
    ensures
        find_path(nodes, path, i) matches Some(k) ==> i <= k < nodes.len() && nodes[k].path == path,
        find_path(nodes, path, i) is None ==> forall|k: int| i <= k < nodes.len() ==> (#[trigger] nodes[k]).path != path,
    decreases nodes.len() - i,
{
    if i < nodes.len() && nodes[i].path != path {
        lemma_find_path(nodes, path, i + 1);
    }
}

/// Putting a node in keeps the paths of the graph distinct.
pub proof fn lemma_insert_node_distinct(nodes: Seq<NodeModel>, node: NodeModel)
    requires
        distinct_paths(nodes),
    ensures
        distinct_paths(insert_node(nodes, node)),
{
    lemma_find_path(nodes, node.path, 0);
    let out = insert_node(nodes, node);
    assert forall|a: int, b: int| 0 <= a < b < out.len() implies (#[trigger] out[a]).path != (#[trigger] out[b]).path by {
        match find_path(nodes, node.path, 0) {
            Some(k) => {
                if a != k && b != k {
                    assert(out[a] == nodes[a] && out[b] == nodes[b]);
                } else if a == k {
                    assert(out[b] == nodes[b]);
                } else {
                    assert(out[a] == nodes[a]);
                }
            },
            None => {
                if b < nodes.len() {
                    assert(out[a] == nodes[a] && out[b] == nodes[b]);
                } else {
                    assert(out[a] == nodes[a]);
                }
            },
        }
    }
}

/// Reading a file keeps the paths of the graph distinct.
pub proof fn lemma_with_file_distinct(nodes: Seq<NodeModel>, path: Seq<char>, text: Seq<char>)
    requires
        distinct_paths(nodes),
    ensures
        distinct_paths(with_file(nodes, path, text)),
{
    if let Ok(ts) = lex(text) {
        if let Some((is, es)) = parse_tokens(ts) {
            lemma_insert_node_distinct(nodes, NodeModel { path: path, imports: is, exports: es });
        }
    }
}

/// The graph holds one node per path: files read under the same path replace each other.
pub proof fn law_graph_paths_distinct(files: Seq<(Seq<char>, Seq<char>)>)
    ensures
        distinct_paths(graph_of(files)),
    decreases files.len(),
{
    if files.len() > 0 {
        law_graph_paths_distinct(files.drop_last());
        let (path, text) = files.last();
        lemma_with_file_distinct(graph_of(files.drop_last()), path, text);
    }
}


/// How many times `x` occurs in `s`.
pub open spec fn occurrences<A>(s: Seq<A>, x: A) -> nat
    decreases s.len(),
{
    if s.len() == 0 {
        0
    } else {
        occurrences(s.drop_last(), x) + if s.last() == x { 1nat } else { 0nat }
    }
}

proof fn lemma_occurrences_concat<A>(a: Seq<A>, b: Seq<A>, x: A)
    ensures
        occurrences(a + b, x) == occurrences(a, x) + occurrences(b, x),
    decreases b.len(),
{
    if b.len() > 0 {
        assert((a + b).drop_last() =~= a + b.drop_last());
        lemma_occurrences_concat(a, b.drop_last(), x);
    } else {
        assert(a + b =~= a);
    }
}

/// The second graph and facts differ from the first only in that every import of the first
/// is also an import of the second: paths, exports, file names and canonical paths agree.
pub open spec fn more_imports(
    nodes: Seq<NodeModel>,
    facts: Seq<FactsModel>,
    nodes2: Seq<NodeModel>,
    facts2: Seq<FactsModel>,
) -> bool {
    &&& nodes2.len() == nodes.len()
    &&& facts2.len() == facts.len()
    &&& forall|i: int| 0 <= i < nodes.len() ==> (#[trigger] nodes2[i]).path == nodes[i].path && nodes2[i].exports == nodes[i].exports
    &&& forall|i: int| 0 <= i < facts.len() ==> (#[trigger] facts2[i]).file_name == facts[i].file_name && facts2[i].canonical == facts[i].canonical
    &&& forall|t: Seq<char>, n: Seq<char>| #[trigger] imported(nodes, facts, t, n) ==> imported(nodes2, facts2, t, n)
}

proof fn lemma_dead_in_names_fewer(
    nodes: Seq<NodeModel>,
    facts: Seq<FactsModel>,
    nodes2: Seq<NodeModel>,
    facts2: Seq<FactsModel>,
    i: int,
    names: Seq<Seq<char>>,
    x: (Seq<char>, Seq<char>),
)
    requires
        more_imports(nodes, facts, nodes2, facts2),
        0 <= i < nodes.len(),
        facts.len() == nodes.len(),
    ensures
        occurrences(dead_in_names(nodes2, facts2, i, names), x) <= occurrences(dead_in_names(nodes, facts, i, names), x),
    decreases names.len(),
{
    if names.len() > 0 {
        let init = names.drop_last();
        let n = names.last();
        lemma_dead_in_names_fewer(nodes, facts, nodes2, facts2, i, init, x);
        assert(nodes2[i].path == nodes[i].path);
        assert(facts2[i].file_name == facts[i].file_name);
        if is_dead(nodes2, facts2, i, n) {
            let t = facts[i].canonical->0;
            if imported(nodes, facts, t, n) {
                assert(imported(nodes2, facts2, t, n));
            }
            assert(is_dead(nodes, facts, i, n));
        }
        let t1 = if is_dead(nodes, facts, i, n) { seq![(nodes[i].path, n)] } else { seq![] };
        let t2 = if is_dead(nodes2, facts2, i, n) { seq![(nodes2[i].path, n)] } else { seq![] };
        lemma_occurrences_concat(dead_in_names(nodes, facts, i, init), t1, x);
        lemma_occurrences_concat(dead_in_names(nodes2, facts2, i, init), t2, x);
        assert(seq![(nodes[i].path, n)].drop_last() =~= Seq::<(Seq<char>, Seq<char>)>::empty());
    }
}

proof fn lemma_dead_in_exports_fewer(
    nodes: Seq<NodeModel>,
    facts: Seq<FactsModel>,
    nodes2: Seq<NodeModel>,
    facts2: Seq<FactsModel>,
    i: int,
    es: Seq<ExportModel>,
    x: (Seq<char>, Seq<char>),
)
    requires
        more_imports(nodes, facts, nodes2, facts2),
        0 <= i < nodes.len(),
        facts.len() == nodes.len(),
    ensures
        occurrences(dead_in_exports(nodes2, facts2, i, es), x) <= occurrences(dead_in_exports(nodes, facts, i, es), x),
    decreases es.len(),
{
    if es.len() > 0 {
        let init = es.drop_last();
        lemma_dead_in_exports_fewer(nodes, facts, nodes2, facts2, i, init, x);
        lemma_dead_in_names_fewer(nodes, facts, nodes2, facts2, i, es.last().names, x);
        lemma_occurrences_concat(dead_in_exports(nodes, facts, i, init), dead_in_names(nodes, facts, i, es.last().names), x);
        lemma_occurrences_concat(dead_in_exports(nodes2, facts2, i, init), dead_in_names(nodes2, facts2, i, es.last().names), x);
    }
}

proof fn lemma_dead_in_nodes_fewer(
    nodes: Seq<NodeModel>,
    facts: Seq<FactsModel>,
    nodes2: Seq<NodeModel>,
    facts2: Seq<FactsModel>,
    upto: int,
    x: (Seq<char>, Seq<char>),
)
    requires
        more_imports(nodes, facts, nodes2, facts2),
        0 <= upto <= nodes.len(),
        facts.len() == nodes.len(),
    ensures
        occurrences(dead_in_nodes(nodes2, facts2, upto), x) <= occurrences(dead_in_nodes(nodes, facts, upto), x),
    decreases upto,
{
    if upto > 0 {
        let i = upto - 1;
        lemma_dead_in_nodes_fewer(nodes, facts, nodes2, facts2, i, x);
        assert(nodes2[i].exports == nodes[i].exports);
        lemma_dead_in_exports_fewer(nodes, facts, nodes2, facts2, i, nodes[i].exports, x);
        lemma_occurrences_concat(dead_in_nodes(nodes, facts, i), dead_in_exports(nodes, facts, i, nodes[i].exports), x);
        lemma_occurrences_concat(dead_in_nodes(nodes2, facts2, i), dead_in_exports(nodes2, facts2, i, nodes2[i].exports), x);
    }
}

/// More imports never mean more dead exports: when every import of one graph is also an
/// import of another that agrees with it on everything else, each (path, name) is listed
/// dead for the second at most as often as for the first.
pub proof fn law_more_imports_fewer_dead(
    nodes: Seq<NodeModel>,
    facts: Seq<FactsModel>,
    nodes2: Seq<NodeModel>,
    facts2: Seq<FactsModel>,
    x: (Seq<char>, Seq<char>),
)
    requires
        facts_match(nodes, facts),
        more_imports(nodes, facts, nodes2, facts2),
    ensures
        occurrences(dead_exports(nodes2, facts2), x) <= occurrences(dead_exports(nodes, facts), x),
{
    lemma_dead_in_nodes_fewer(nodes, facts, nodes2, facts2, nodes.len() as int, x);
}

/// The graph and facts with one more import statement `stmt` in the `i`-th file, resolving
/// to `target`.
pub open spec fn with_import(
    nodes: Seq<NodeModel>,
    facts: Seq<FactsModel>,
    i: int,
    stmt: ImportModel,
    target: Option<Seq<char>>,
) -> (Seq<NodeModel>, Seq<FactsModel>) {
    (
        nodes.update(i, NodeModel { path: nodes[i].path, imports: nodes[i].imports.push(stmt), exports: nodes[i].exports }),
        facts.update(i, FactsModel { file_name: facts[i].file_name, canonical: facts[i].canonical, resolved: facts[i].resolved.push(target) }),
    )
}

/// Adding an import statement to a file never adds a dead export: each (path, name) is
/// listed at most as often as before, and the facts still match the graph.
pub proof fn law_adding_import_adds_no_dead_export(
    nodes: Seq<NodeModel>,
    facts: Seq<FactsModel>,
    i: int,
    stmt: ImportModel,
    target: Option<Seq<char>>,
    x: (Seq<char>, Seq<char>),
)
    requires
        facts_match(nodes, facts),
        0 <= i < nodes.len(),
    ensures
        ({
            let (nodes2, facts2) = with_import(nodes, facts, i, stmt, target);
            &&& facts_match(nodes2, facts2)
            &&& occurrences(dead_exports(nodes2, facts2), x) <= occurrences(dead_exports(nodes, facts), x)
        }),
{
    let (nodes2, facts2) = with_import(nodes, facts, i, stmt, target);
    assert(facts[i].resolved.len() == nodes[i].imports.len());
    assert forall|k: int| 0 <= k < nodes2.len() implies (#[trigger] facts2[k]).resolved.len() == nodes2[k].imports.len() by {
        if k != i {
            assert(facts[k].resolved.len() == nodes[k].imports.len());
        }
    }
    assert forall|t: Seq<char>, n: Seq<char>| #[trigger] imported(nodes, facts, t, n) implies imported(nodes2, facts2, t, n) by {
        let (a, j) = choose|a: int, j: int|
            0 <= a < nodes.len() && 0 <= j < nodes[a].imports.len() && #[trigger] facts[a].resolved[j] == Some(t)
                && #[trigger] nodes[a].imports[j].names.contains(n);
        if a == i {
            assert(nodes2[a].imports[j] == nodes[a].imports[j]);
            assert(facts[a].resolved.len() == nodes[a].imports.len());
            assert(facts2[a].resolved[j] == facts[a].resolved[j]);
        } else {
            assert(nodes2[a] == nodes[a]);
            assert(facts2[a] == facts[a]);
        }
        assert(facts2[a].resolved[j] == Some(t) && nodes2[a].imports[j].names.contains(n));
    }
    law_more_imports_fewer_dead(nodes, facts, nodes2, facts2, x);
}

/// The names that are live everywhere without an import are exactly `metadata`, `dynamic`,
/// `revalidate`, `generateStaticParams`, `generateMetadata` and `default`; a file named
/// `route.ts` adds `GET`, `POST`, `PUT`, `DELETE`, `PATCH` and `nextAuth`, and a file named
/// `middleware.ts` adds `config`.
pub proof fn law_framework_names_exact(file_name: Option<Seq<char>>, n: Seq<char>)
    ensures
        framework_name(n) <==> (n == "metadata"@ || n == "dynamic"@ || n == "revalidate"@
            || n == "generateStaticParams"@ || n == "generateMetadata"@ || n == "default"@),
        used_by_framework(file_name, n) <==> ({
            ||| n == "metadata"@ || n == "dynamic"@ || n == "revalidate"@ || n == "generateStaticParams"@
                || n == "generateMetadata"@ || n == "default"@
            ||| file_name == Some("route.ts"@) && (n == "GET"@ || n == "POST"@ || n == "PUT"@
                || n == "DELETE"@ || n == "PATCH"@ || n == "nextAuth"@)
            ||| file_name == Some("middleware.ts"@) && n == "config"@
        }),
{
}

/// Any other export that no file imports is reported: if an export statement of the
/// `i`-th file names `name`, `name` is none of the framework's names listed in
/// `law_framework_names_exact` (for that file's name), the file has canonical path `c` and
/// no file imports `name` from `c`, then `(path, name)` is among the dead exports.
pub proof fn law_unlisted_exports_reported(nodes: Seq<NodeModel>, facts: Seq<FactsModel>, i: int, e: int, name: Seq<char>)
    requires
        facts_match(nodes, facts),
        0 <= i < nodes.len(),
        0 <= e < nodes[i].exports.len(),
        nodes[i].exports[e].names.contains(name),
        !(name == "metadata"@ || name == "dynamic"@ || name == "revalidate"@ || name == "generateStaticParams"@
            || name == "generateMetadata"@ || name == "default"@),
        !(facts[i].file_name == Some("route.ts"@) && (name == "GET"@ || name == "POST"@ || name == "PUT"@
            || name == "DELETE"@ || name == "PATCH"@ || name == "nextAuth"@)),
        !(facts[i].file_name == Some("middleware.ts"@) && name == "config"@),
        facts[i].canonical matches Some(c) && !imported(nodes, facts, c, name),
    ensures
        dead_exports(nodes, facts).contains((nodes[i].path, name)),
{
    lemma_dead_in_nodes(nodes, facts, nodes.len() as int, (nodes[i].path, name));
    assert(is_dead(nodes, facts, i, name));
}

/// An import is looked up under each source extension once: first the directory's index
/// files `index.tsx`, `index.ts`, `index.js`, `index.jsx`, then the path with the extensions
/// `ts`, `tsx`, `js`, `jsx`. The candidates are distinct, the extensions tried are exactly
/// the source extensions of the scan, and the index files are exactly `index.` followed by
/// one of them.
pub proof fn law_lookup_order()
    ensures
        lookup_order() == seq![
            CandidateModel::IndexFile("index.tsx"@),
            CandidateModel::IndexFile("index.ts"@),
            CandidateModel::IndexFile("index.js"@),
            CandidateModel::IndexFile("index.jsx"@),
            CandidateModel::Extension("ts"@),
            CandidateModel::Extension("tsx"@),
            CandidateModel::Extension("js"@),
            CandidateModel::Extension("jsx"@),
        ],
        forall|a: int, b: int| 0 <= a < b < lookup_order().len() ==> lookup_order()[a] != lookup_order()[b],
        forall|x: Seq<char>| source_extension(x) <==> lookup_order().contains(CandidateModel::Extension(x)),
        forall|x: Seq<char>| source_extension(x) <==> lookup_order().contains(CandidateModel::IndexFile("index."@ + x)),
{
    reveal_strlit("index.tsx");
    reveal_strlit("index.ts");
    reveal_strlit("index.js");
    reveal_strlit("index.jsx");
    reveal_strlit("index.");
    reveal_strlit("ts");
    reveal_strlit("tsx");
    reveal_strlit("js");
    reveal_strlit("jsx");
    let o = lookup_order();
    assert("index."@ + "ts"@ =~= "index.ts"@);
    assert("index."@ + "tsx"@ =~= "index.tsx"@);
    assert("index."@ + "js"@ =~= "index.js"@);
    assert("index."@ + "jsx"@ =~= "index.jsx"@);
    assert forall|a: int, b: int| 0 <= a < b < o.len() implies o[a] != o[b] by {
        if a < 4 && b < 4 {
            assert(o[a]->IndexFile_0.len() != o[b]->IndexFile_0.len() || o[a]->IndexFile_0[6] != o[b]->IndexFile_0[6]);
        } else if a >= 4 {
            assert(o[a]->Extension_0.len() != o[b]->Extension_0.len() || o[a]->Extension_0[0] != o[b]->Extension_0[0]);
        }
    }
    assert forall|x: Seq<char>| source_extension(x) <==> o.contains(CandidateModel::Extension(x)) by {
        if o.contains(CandidateModel::Extension(x)) {
            let k = choose|k: int| 0 <= k < o.len() && o[k] == CandidateModel::Extension(x);
            assert(k >= 4);
        }
        if source_extension(x) {
            if x == "ts"@ { assert(o[4] == CandidateModel::Extension(x)); }
            if x == "tsx"@ { assert(o[5] == CandidateModel::Extension(x)); }
            if x == "js"@ { assert(o[6] == CandidateModel::Extension(x)); }
            if x == "jsx"@ { assert(o[7] == CandidateModel::Extension(x)); }
        }
    }
    assert forall|x: Seq<char>| source_extension(x) <==> o.contains(CandidateModel::IndexFile("index."@ + x)) by {
        if o.contains(CandidateModel::IndexFile("index."@ + x)) {
            let k = choose|k: int| 0 <= k < o.len() && o[k] == CandidateModel::IndexFile("index."@ + x);
            assert(k < 4);
            assert(x =~= ("index."@ + x).skip(6));
            assert(o[k]->IndexFile_0.skip(6) == ("index."@ + x).skip(6));
            if k == 0 { assert("index.tsx"@.skip(6) =~= "tsx"@); }
            if k == 1 { assert("index.ts"@.skip(6) =~= "ts"@); }
            if k == 2 { assert("index.js"@.skip(6) =~= "js"@); }
            if k == 3 { assert("index.jsx"@.skip(6) =~= "jsx"@); }
        }
        if source_extension(x) {
            if x == "tsx"@ { assert(o[0] == CandidateModel::IndexFile("index."@ + x)); }
            if x == "ts"@ { assert(o[1] == CandidateModel::IndexFile("index."@ + x)); }
            if x == "js"@ { assert(o[2] == CandidateModel::IndexFile("index."@ + x)); }
            if x == "jsx"@ { assert(o[3] == CandidateModel::IndexFile("index."@ + x)); }
        }
    }
}

} // verus!
