//! Building the graph from source files: line counts, import and export
//! extraction, dependency resolution, and the index metadata.
use vstd::prelude::*;
use crate::graph::{
    clone_strings, insert_node, node_paths, CodeGraph, FileNode, FileNodeModel, IndexMetadata,
    IndexedFileMeta, Language, INDEX_SCHEMA_VERSION,
};
use crate::order::{
    lemma_lt_irreflexive, lemma_lt_transitive, seq_lt, sort_dedup, str_eq, str_lt, str_views,
    strictly_sorted,
};
use crate::parse::{exports_of, extract_exports, extract_imports, imports_of};
use crate::resolve::{
    content_view, is_rust_local_import, resolve_go, resolve_go_import, resolve_js,
    resolve_js_import, resolve_python, resolve_python_import, resolve_rust_import, rust_local,
    rust_resolved,
};
use crate::text::{chars_of, starts_with, starts_with_exec, string_of, views};

verus! {

// ---------------------------------------------------------------------------
// One import
// ---------------------------------------------------------------------------

/// How one raw import resolved.
pub struct ImportResolution {
    /// The files of the graph it names.
    pub deps: Vec<String>,
    /// It looks local but names no file of the graph.
    pub unresolved_local: bool,
    /// It points outside the project.
    pub external: bool,
}

pub open spec fn opt_set(o: Option<Seq<char>>) -> Set<Seq<char>> {
    match o {
        Some(p) => Set::empty().insert(p),
        None => Set::empty(),
    }
}

/// The files an import of a file in `language` resolves to.
pub open spec fn resolution_deps(
    import: Seq<char>,
    file: Seq<char>,
    language: Language,
    paths: Seq<Seq<char>>,
    content: Option<Seq<char>>,
) -> Set<Seq<char>> {
    match language {
        Language::Rust => rust_resolved(import, file, paths, content),
        Language::TypeScript | Language::JavaScript => if starts_with(import, "."@) {
            opt_set(resolve_js(import, file, paths))
        } else {
            Set::empty()
        },
        Language::Python => opt_set(resolve_python(import, file, paths)),
        Language::Go => opt_set(resolve_go(import, paths)),
        Language::Unknown => Set::empty(),
    }
}

/// The import looks local but resolves to no file.
pub open spec fn resolution_unresolved(
    import: Seq<char>,
    file: Seq<char>,
    language: Language,
    paths: Seq<Seq<char>>,
    content: Option<Seq<char>>,
) -> bool {
    let none = resolution_deps(import, file, language, paths, content) == Set::<Seq<char>>::empty();
    match language {
        Language::Rust => rust_local(import) && none,
        Language::TypeScript | Language::JavaScript => starts_with(import, "."@) && none,
        Language::Python => none && starts_with(import, "."@),
        Language::Go => false,
        Language::Unknown => false,
    }
}

/// The import points outside the project.
pub open spec fn resolution_external(
    import: Seq<char>,
    file: Seq<char>,
    language: Language,
    paths: Seq<Seq<char>>,
    content: Option<Seq<char>>,
) -> bool {
    let none = resolution_deps(import, file, language, paths, content) == Set::<Seq<char>>::empty();
    match language {
        Language::Rust => !rust_local(import) && none,
        Language::TypeScript | Language::JavaScript => !starts_with(import, "."@),
        Language::Python => none && !starts_with(import, "."@),
        Language::Go => none,
        Language::Unknown => false,
    }
}

fn single(p: Option<Vec<char>>) -> (r: Vec<String>)
    ensures
        str_views(r@).to_set() == opt_set(match p {
            Some(x) => Some(x@),
            None => None,
        }),
        str_views(r@).len() == 0 <==> p is None,
{
    let mut r: Vec<String> = Vec::new();
    match p {
        Some(x) => {
            r.push(string_of(x.as_slice()));
            let ghost one = str_views(r@);
            assert forall|y: Seq<char>| one.to_set().contains(y) <==> y == x@ by {
                if y == x@ {
                    assert(one[0] == y);
                }
            }
            assert(one.to_set() =~= Set::<Seq<char>>::empty().insert(x@));
        },
        None => {
            assert(str_views(r@).to_set() =~= Set::<Seq<char>>::empty());
        },
    }
    r
}

proof fn lemma_empty_set_of_empty_seq(s: Seq<Seq<char>>)
    ensures
        (s.len() == 0) == (s.to_set() == Set::<Seq<char>>::empty()),
{
    if s.len() > 0 {
        assert(s.to_set().contains(s[0]));
    } else {
        assert(s.to_set() =~= Set::<Seq<char>>::empty());
    }
}

/// Resolves one raw import of `source_file` against the files of the graph.
pub fn resolve_import(
    import: &[char],
    source_file: &[char],
    language: Language,
    all_paths: &Vec<Vec<char>>,
    source_content: Option<&[char]>,
) -> (r: ImportResolution)
    ensures
        str_views(r.deps@).to_set() == resolution_deps(import@, source_file@, language, views(all_paths@), content_view(source_content)),
        r.unresolved_local == resolution_unresolved(import@, source_file@, language, views(all_paths@), content_view(source_content)),
        r.external == resolution_external(import@, source_file@, language, views(all_paths@), content_view(source_content)),
{
    let dot = chars_of(".");
    match language {
        Language::Rust => {
            let deps = resolve_rust_import(import, source_file, all_paths, source_content);
            let is_local = is_rust_local_import(import);
            proof {
                lemma_empty_set_of_empty_seq(str_views(deps@));
            }
            let none = deps.len() == 0;
            ImportResolution { unresolved_local: is_local && none, external: !is_local && none, deps }
        },
        Language::TypeScript | Language::JavaScript => {
            if !starts_with_exec(import, dot.as_slice()) {
                let deps: Vec<String> = Vec::new();
                assert(str_views(deps@).to_set() =~= Set::<Seq<char>>::empty());
                return ImportResolution { deps, unresolved_local: false, external: true };
            }
            let deps = single(resolve_js_import(import, source_file, all_paths));
            proof {
                lemma_empty_set_of_empty_seq(str_views(deps@));
            }
            let none = deps.len() == 0;
            ImportResolution { deps, unresolved_local: none, external: false }
        },
        Language::Python => {
            let deps = single(resolve_python_import(import, source_file, all_paths));
            proof {
                lemma_empty_set_of_empty_seq(str_views(deps@));
            }
            let none = deps.len() == 0;
            let relative = starts_with_exec(import, dot.as_slice());
            ImportResolution { deps, unresolved_local: none && relative, external: none && !relative }
        },
        Language::Go => {
            let deps = single(resolve_go_import(import, all_paths));
            proof {
                lemma_empty_set_of_empty_seq(str_views(deps@));
            }
            let none = deps.len() == 0;
            ImportResolution { deps, unresolved_local: false, external: none }
        },
        Language::Unknown => {
            let deps: Vec<String> = Vec::new();
            assert(str_views(deps@).to_set() =~= Set::<Seq<char>>::empty());
            ImportResolution { deps, unresolved_local: false, external: false }
        },
    }
}


// ---------------------------------------------------------------------------
// One file
// ---------------------------------------------------------------------------

/// The files a node's imports resolve to, other than the node itself.
pub open spec fn resolved_deps_set(n: FileNodeModel, paths: Seq<Seq<char>>, content: Option<Seq<char>>) -> Set<Seq<char>> {
    Set::new(|d: Seq<char>| d != n.path && exists|j: int| 0 <= j < n.imports.len() && #[trigger] resolution_deps(n.imports[j], n.path, n.language, paths, content).contains(d))
}

/// A node's imports that look local but resolve to no file.
pub open spec fn unresolved_set(n: FileNodeModel, paths: Seq<Seq<char>>, content: Option<Seq<char>>) -> Set<Seq<char>> {
    Set::new(|imp: Seq<char>| exists|j: int| 0 <= j < n.imports.len() && #[trigger] n.imports[j] == imp && resolution_unresolved(imp, n.path, n.language, paths, content))
}

/// A node's imports that point outside the project.
pub open spec fn external_set(n: FileNodeModel, paths: Seq<Seq<char>>, content: Option<Seq<char>>) -> Set<Seq<char>> {
    Set::new(|imp: Seq<char>| exists|j: int| 0 <= j < n.imports.len() && #[trigger] n.imports[j] == imp && resolution_external(imp, n.path, n.language, paths, content))
}

/// `new` is `old` with its dependencies, unresolved and external imports
/// resolved against `paths`, each list sorted and without duplicates.
pub open spec fn node_resolved(old: FileNodeModel, new: FileNodeModel, paths: Seq<Seq<char>>, content: Option<Seq<char>>) -> bool {
    &&& new.path == old.path
    &&& new.language == old.language
    &&& new.imports == old.imports
    &&& new.exports == old.exports
    &&& new.lines == old.lines
    &&& strictly_sorted(new.deps)
    &&& new.deps.to_set() == resolved_deps_set(old, paths, content)
    &&& strictly_sorted(new.unresolved_imports)
    &&& new.unresolved_imports.to_set() == unresolved_set(old, paths, content)
    &&& strictly_sorted(new.external_imports)
    &&& new.external_imports.to_set() == external_set(old, paths, content)
}

/// A prefix-limited form of the three sets, for the loop over the imports.
spec fn deps_upto(n: FileNodeModel, paths: Seq<Seq<char>>, content: Option<Seq<char>>, k: int) -> Set<Seq<char>> {
    Set::new(|d: Seq<char>| d != n.path && exists|j: int| 0 <= j < k && #[trigger] resolution_deps(n.imports[j], n.path, n.language, paths, content).contains(d))
}

spec fn unresolved_upto(n: FileNodeModel, paths: Seq<Seq<char>>, content: Option<Seq<char>>, k: int) -> Set<Seq<char>> {
    Set::new(|imp: Seq<char>| exists|j: int| 0 <= j < k && #[trigger] n.imports[j] == imp && resolution_unresolved(imp, n.path, n.language, paths, content))
}

spec fn external_upto(n: FileNodeModel, paths: Seq<Seq<char>>, content: Option<Seq<char>>, k: int) -> Set<Seq<char>> {
    Set::new(|imp: Seq<char>| exists|j: int| 0 <= j < k && #[trigger] n.imports[j] == imp && resolution_external(imp, n.path, n.language, paths, content))
}

proof fn lemma_push_set(before: Seq<Seq<char>>, x: Seq<char>)
    ensures
        before.push(x).to_set() == before.to_set().insert(x),
{
    before.lemma_push_to_set_commute(x);
}

/// Resolves the imports of one node.
fn resolve_node(node: &FileNode, all_paths: &Vec<Vec<char>>, content: Option<&[char]>) -> (r: FileNode)
    ensures
        node_resolved(node@, r@, views(all_paths@), content_view(content)),
{
    let ghost n = node@;
    let ghost paths = views(all_paths@);
    let ghost cv = content_view(content);
    let path_chars = chars_of(node.path.as_str());
    let mut deps: Vec<String> = Vec::new();
    let mut unresolved: Vec<String> = Vec::new();
    let mut external: Vec<String> = Vec::new();
    let mut j: usize = 0;
    assert(str_views(deps@).to_set() =~= deps_upto(n, paths, cv, 0));
    assert(str_views(unresolved@).to_set() =~= unresolved_upto(n, paths, cv, 0));
    assert(str_views(external@).to_set() =~= external_upto(n, paths, cv, 0));
    while j < node.imports.len()
        invariant
            n == node@,
            paths == views(all_paths@),
            cv == content_view(content),
            path_chars@ == n.path,
            j <= n.imports.len(),
            str_views(deps@).to_set() == deps_upto(n, paths, cv, j as int),
            str_views(unresolved@).to_set() == unresolved_upto(n, paths, cv, j as int),
            str_views(external@).to_set() == external_upto(n, paths, cv, j as int),
        decreases n.imports.len() - j,
    {
        let imp = chars_of(node.imports[j].as_str());
        let res = resolve_import(imp.as_slice(), path_chars.as_slice(), node.language, all_paths, content);
        let ghost rs = str_views(res.deps@);
        let ghost start = str_views(deps@);
        let mut b: usize = 0;
        while b < res.deps.len()
            invariant
                n == node@,
                path_chars@ == n.path,
                rs == str_views(res.deps@),
                b <= rs.len(),
                str_views(deps@).to_set() == start.to_set().union(
                    Set::new(|d: Seq<char>| d != n.path && exists|c: int| 0 <= c < b && #[trigger] rs[c] == d),
                ),
            decreases rs.len() - b,
        {
            let ghost before = str_views(deps@);
            if !str_eq(res.deps[b].as_str(), node.path.as_str()) {
                deps.push(res.deps[b].clone());
                assert(str_views(deps@) =~= before.push(rs[b as int]));
                proof {
                    lemma_push_set(before, rs[b as int]);
                }
            }
            assert(str_views(deps@).to_set() =~= start.to_set().union(
                Set::new(|d: Seq<char>| d != n.path && exists|c: int| 0 <= c < b + 1 && #[trigger] rs[c] == d),
            )) by {
                assert forall|d: Seq<char>| (d != n.path && exists|c: int| 0 <= c < b + 1 && #[trigger] rs[c] == d) implies str_views(deps@).to_set().contains(d) by {
                    let c = choose|c: int| 0 <= c < b + 1 && #[trigger] rs[c] == d;
                    if c < b {
                        assert(before.to_set().contains(d));
                    }
                }
            }
            b = b + 1;
        }
        assert(str_views(deps@).to_set() =~= deps_upto(n, paths, cv, j + 1)) by {
            assert forall|d: Seq<char>| deps_upto(n, paths, cv, j + 1).contains(d) implies str_views(deps@).to_set().contains(d) by {
                let jj = choose|jj: int| 0 <= jj < j + 1 && #[trigger] resolution_deps(n.imports[jj], n.path, n.language, paths, cv).contains(d);
                if jj == j {
                    assert(rs.to_set().contains(d));
                    let c = choose|c: int| 0 <= c < rs.len() && rs[c] == d;
                    assert(exists|c: int| 0 <= c < rs.len() && #[trigger] rs[c] == d);
                } else {
                    assert(deps_upto(n, paths, cv, j as int).contains(d));
                }
            }
            assert forall|d: Seq<char>| str_views(deps@).to_set().contains(d) implies deps_upto(n, paths, cv, j + 1).contains(d) by {
                if start.to_set().contains(d) {
                    assert(deps_upto(n, paths, cv, j as int).contains(d));
                } else {
                    let c = choose|c: int| 0 <= c < rs.len() && #[trigger] rs[c] == d;
                    assert(rs.to_set().contains(d));
                    assert(resolution_deps(n.imports[j as int], n.path, n.language, paths, cv).contains(d));
                }
            }
        }
        let ghost ub = str_views(unresolved@);
        if res.unresolved_local {
            unresolved.push(node.imports[j].clone());
            assert(str_views(unresolved@) =~= ub.push(n.imports[j as int]));
            proof {
                lemma_push_set(ub, n.imports[j as int]);
            }
        }
        assert(str_views(unresolved@).to_set() =~= unresolved_upto(n, paths, cv, j + 1)) by {
            assert forall|x: Seq<char>| unresolved_upto(n, paths, cv, j + 1).contains(x) implies str_views(unresolved@).to_set().contains(x) by {
                let jj = choose|jj: int| 0 <= jj < j + 1 && #[trigger] n.imports[jj] == x && resolution_unresolved(x, n.path, n.language, paths, cv);
                if jj < j {
                    assert(unresolved_upto(n, paths, cv, j as int).contains(x));
                }
            }
            assert forall|x: Seq<char>| str_views(unresolved@).to_set().contains(x) implies unresolved_upto(n, paths, cv, j + 1).contains(x) by {
                if ub.to_set().contains(x) {
                    assert(unresolved_upto(n, paths, cv, j as int).contains(x));
                } else {
                    assert(n.imports[j as int] == x);
                }
            }
        }
        let ghost eb = str_views(external@);
        if res.external {
            external.push(node.imports[j].clone());
            assert(str_views(external@) =~= eb.push(n.imports[j as int]));
            proof {
                lemma_push_set(eb, n.imports[j as int]);
            }
        }
        assert(str_views(external@).to_set() =~= external_upto(n, paths, cv, j + 1)) by {
            assert forall|x: Seq<char>| external_upto(n, paths, cv, j + 1).contains(x) implies str_views(external@).to_set().contains(x) by {
                let jj = choose|jj: int| 0 <= jj < j + 1 && #[trigger] n.imports[jj] == x && resolution_external(x, n.path, n.language, paths, cv);
                if jj < j {
                    assert(external_upto(n, paths, cv, j as int).contains(x));
                }
            }
            assert forall|x: Seq<char>| str_views(external@).to_set().contains(x) implies external_upto(n, paths, cv, j + 1).contains(x) by {
                if eb.to_set().contains(x) {
                    assert(external_upto(n, paths, cv, j as int).contains(x));
                } else {
                    assert(n.imports[j as int] == x);
                }
            }
        }
        j = j + 1;
    }
    let deps = sort_dedup(&deps);
    let unresolved = sort_dedup(&unresolved);
    let external = sort_dedup(&external);
    assert(deps_upto(n, paths, cv, n.imports.len() as int) =~= resolved_deps_set(n, paths, cv));
    assert(unresolved_upto(n, paths, cv, n.imports.len() as int) =~= unresolved_set(n, paths, cv));
    assert(external_upto(n, paths, cv, n.imports.len() as int) =~= external_set(n, paths, cv));
    FileNode {
        path: node.path.clone(),
        language: node.language,
        imports: clone_strings(&node.imports),
        deps,
        unresolved_imports: unresolved,
        external_imports: external,
        exports: clone_strings(&node.exports),
        lines: node.lines,
    }
}


// ---------------------------------------------------------------------------
// The whole graph
// ---------------------------------------------------------------------------

/// A source file as read from disk.
pub struct SourceFile {
    /// Path relative to the repository root.
    pub rel_path: String,
    pub language: Language,
    pub content: String,
    pub meta: IndexedFileMeta,
}

/// The content recorded for path `p`: that of the last source with that path.
pub open spec fn lookup_content(ss: Seq<SourceFile>, p: Seq<char>) -> Option<Seq<char>>
    decreases ss.len(),
{
    if ss.len() == 0 {
        None
    } else if ss.last().rel_path@ == p {
        Some(ss.last().content@)
    } else {
        lookup_content(ss.drop_last(), p)
    }
}

fn find_content<'a>(ss: &'a Vec<SourceFile>, p: &String) -> (r: Option<&'a String>)
    ensures
        match r {
            Some(c) => lookup_content(ss@, p@) == Some(c@),
            None => lookup_content(ss@, p@) is None,
        },
{
    let mut n: usize = ss.len();
    assert(ss@.subrange(0, n as int) =~= ss@);
    while n > 0
        invariant
            n <= ss@.len(),
            lookup_content(ss@, p@) == lookup_content(ss@.subrange(0, n as int), p@),
        decreases n,
    {
        let ghost sub = ss@.subrange(0, n as int);
        assert(sub.drop_last() =~= ss@.subrange(0, n - 1));
        assert(sub.last() == ss@[n - 1]);
        if str_eq(ss[n - 1].rel_path.as_str(), p.as_str()) {
            return Some(&ss[n - 1].content);
        }
        n = n - 1;
    }
    None
}

/// The paths of the graph as character vectors.
fn path_chars(g: &CodeGraph) -> (r: Vec<Vec<char>>)
    ensures
        views(r@) == g.paths(),
{
    let mut r: Vec<Vec<char>> = Vec::new();
    let mut i: usize = 0;
    while i < g.nodes.len()
        invariant
            i <= g.nodes@.len(),
            views(r@) == g.paths().subrange(0, i as int),
        decreases g.nodes@.len() - i,
    {
        let ghost before = views(r@);
        let c = chars_of(g.nodes[i].path.as_str());
        r.push(c);
        assert(views(r@) =~= before.push(g.paths()[i as int]));
        i = i + 1;
        assert(views(r@) =~= g.paths().subrange(0, i as int));
    }
    assert(g.paths().subrange(0, g.nodes@.len() as int) =~= g.paths());
    r
}

/// Resolves the raw imports of every node to files of the graph, recording
/// dependencies, unresolved local imports and external imports.
pub fn resolve_deps(graph: &mut CodeGraph, source_contents: &Vec<SourceFile>)
    requires
        old(graph).wf(),
    ensures
        final(graph).wf(),
        final(graph).rdeps@ == old(graph).rdeps@,
        final(graph).metadata == old(graph).metadata,
        final(graph).node_views().len() == old(graph).node_views().len(),
        forall|i: int| 0 <= i < old(graph).node_views().len() ==> node_resolved(
            old(graph).node_views()[i],
            #[trigger] final(graph).node_views()[i],
            old(graph).paths(),
            lookup_content(source_contents@, old(graph).node_views()[i].path),
        ),
{
    let ghost old_nodes = graph.node_views();
    let ghost paths = graph.paths();
    let all_paths = path_chars(graph);
    let mut i: usize = 0;
    while i < graph.nodes.len()
        invariant
            graph.wf(),
            graph.rdeps@ == old(graph).rdeps@,
            graph.metadata == old(graph).metadata,
            old_nodes == old(graph).node_views(),
            paths == old(graph).paths(),
            views(all_paths@) == paths,
            graph.node_views().len() == old_nodes.len(),
            graph.paths() == paths,
            i <= old_nodes.len(),
            forall|j: int| i <= j < old_nodes.len() ==> #[trigger] graph.node_views()[j] == old_nodes[j],
            forall|j: int| 0 <= j < i ==> node_resolved(
                old_nodes[j],
                #[trigger] graph.node_views()[j],
                paths,
                lookup_content(source_contents@, old_nodes[j].path),
            ),
        decreases old_nodes.len() - i,
    {
        let content_chars: Option<Vec<char>> = match find_content(source_contents, &graph.nodes[i].path) {
            Some(c) => Some(chars_of(c.as_str())),
            None => None,
        };
        let content: Option<&[char]> = match &content_chars {
            Some(v) => Some(v.as_slice()),
            None => None,
        };
        assert(graph.node_views()[i as int] == graph.nodes@[i as int]@);
        let resolved = resolve_node(&graph.nodes[i], &all_paths, content);
        let ghost rv = resolved@;
        let ghost before = graph.node_views();
        graph.nodes.set(i, resolved);
        assert(graph.node_views() =~= before.update(i as int, rv));
        assert(graph.paths() =~= paths);
        i = i + 1;
    }
}

/// How many times `c` occurs in `s`.
pub open spec fn count_char(s: Seq<char>, c: char) -> nat
    decreases s.len(),
{
    if s.len() == 0 {
        0
    } else {
        count_char(s.drop_last(), c) + if s.last() == c { 1nat } else { 0nat }
    }
}

proof fn lemma_count_char_bound(s: Seq<char>, c: char)
    ensures
        count_char(s, c) <= s.len(),
    decreases s.len(),
{
    if s.len() > 0 {
        lemma_count_char_bound(s.drop_last(), c);
    }
}

/// The number of lines `str::lines` yields: one per line feed, and one more
/// for a last line without a line feed.
pub open spec fn line_count(s: Seq<char>) -> nat {
    count_char(s, '\n') + if s.len() > 0 && s.last() != '\n' { 1nat } else { 0nat }
}

/// The number of lines of `content`.
pub fn count_lines(content: &str) -> (r: usize)
    ensures
        r == line_count(content@),
{
    let cs = chars_of(content);
    let mut count: usize = 0;
    let mut i: usize = 0;
    while i < cs.len()
        invariant
            i <= cs@.len(),
            cs@ == content@,
            count == count_char(cs@.subrange(0, i as int), '\n'),
            count <= i,
        decreases cs@.len() - i,
    {
        assert(cs@.subrange(0, i + 1).drop_last() =~= cs@.subrange(0, i as int));
        if cs[i] == '\n' {
            count = count + 1;
        }
        i = i + 1;
    }
    assert(cs@.subrange(0, cs@.len() as int) =~= cs@);
    if cs.len() > 0 && cs[cs.len() - 1] != '\n' {
        proof {
            lemma_count_char_bound(cs@.drop_last(), '\n');
        }
        count + 1
    } else {
        count
    }
}


/// The node a source file gives before its imports are resolved.
pub open spec fn source_node(src: SourceFile) -> FileNodeModel {
    FileNodeModel {
        path: src.rel_path@,
        language: src.language,
        imports: imports_of(src.content@, src.language),
        deps: Seq::empty(),
        unresolved_imports: Seq::empty(),
        external_imports: Seq::empty(),
        exports: exports_of(src.content@, src.language),
        lines: line_count(src.content@),
    }
}

/// The nodes after adding each source file in turn.
pub open spec fn built_nodes(ss: Seq<SourceFile>) -> Seq<FileNodeModel>
    decreases ss.len(),
{
    if ss.len() == 0 {
        Seq::empty()
    } else {
        insert_node(built_nodes(ss.drop_last()), source_node(ss.last()))
    }
}

pub open spec fn meta_view(m: IndexedFileMeta) -> (Seq<char>, u64, u64) {
    (m.path@, m.modified_unix_ms, m.byte_len)
}

pub open spec fn meta_views(ms: Seq<IndexedFileMeta>) -> Seq<(Seq<char>, u64, u64)> {
    ms.map_values(|m: IndexedFileMeta| meta_view(m))
}

/// A copy of the record.
pub fn duplicate_meta(m: &IndexedFileMeta) -> (r: IndexedFileMeta)
    ensures
        meta_view(r) == meta_view(*m),
{
    IndexedFileMeta { path: m.path.clone(), modified_unix_ms: m.modified_unix_ms, byte_len: m.byte_len }
}

/// Builds the graph of a project from its source files: one node per file
/// (the last file wins where paths repeat), imports resolved, the reverse
/// index built, and the metadata that later tells whether the graph is stale,
/// its file records sorted by path.
pub fn scan_sources(sources: &Vec<SourceFile>, generated_at_unix_ms: u64, atlas_version: &str, repo_path: &str) -> (g: CodeGraph)
    ensures
        g.wf(),
        g.rdeps_current(),
        g.node_views().len() == built_nodes(sources@).len(),
        forall|i: int| 0 <= i < built_nodes(sources@).len() ==> node_resolved(
            built_nodes(sources@)[i],
            #[trigger] g.node_views()[i],
            node_paths(built_nodes(sources@)),
            lookup_content(sources@, built_nodes(sources@)[i].path),
        ),
        g.metadata matches Some(m) && {
            &&& m.schema_version == INDEX_SCHEMA_VERSION
            &&& m.generated_at_unix_ms == generated_at_unix_ms
            &&& m.atlas_version@ == atlas_version@
            &&& m.repo_path@ == repo_path@
            &&& meta_views(m.indexed_files@).to_multiset() == sources@.map_values(|s: SourceFile| meta_view(s.meta)).to_multiset()
            &&& paths_nondecreasing(meta_views(m.indexed_files@))
        },
{
    let mut g = CodeGraph::new();
    let mut metas: Vec<IndexedFileMeta> = Vec::new();
    let mut i: usize = 0;
    assert(sources@.subrange(0, 0) =~= Seq::<SourceFile>::empty());
    while i < sources.len()
        invariant
            i <= sources@.len(),
            g.wf(),
            g.node_views() == built_nodes(sources@.subrange(0, i as int)),
            meta_views(metas@) == sources@.subrange(0, i as int).map_values(|s: SourceFile| meta_view(s.meta)),
        decreases sources@.len() - i,
    {
        let src = &sources[i];
        let lines = count_lines(src.content.as_str());
        let imports = extract_imports(src.content.as_str(), src.language);
        let exports = extract_exports(src.content.as_str(), src.language);
        let node = FileNode {
            path: src.rel_path.clone(),
            language: src.language,
            imports,
            deps: Vec::new(),
            unresolved_imports: Vec::new(),
            external_imports: Vec::new(),
            exports,
            lines,
        };
        assert(node@ =~= source_node(*src));
        let ghost sub = sources@.subrange(0, i + 1);
        assert(sub.drop_last() =~= sources@.subrange(0, i as int));
        assert(sub.last() == *src);
        g.add_node(node);
        let ghost mb = meta_views(metas@);
        metas.push(duplicate_meta(&src.meta));
        assert(meta_views(metas@) =~= mb.push(meta_view(src.meta)));
        i = i + 1;
        assert(meta_views(metas@) =~= sources@.subrange(0, i as int).map_values(|s: SourceFile| meta_view(s.meta)));
    }
    assert(sources@.subrange(0, sources@.len() as int) =~= sources@);
    resolve_deps(&mut g, sources);
    g.build_rdeps();
    g.metadata = Some(IndexMetadata {
        schema_version: INDEX_SCHEMA_VERSION,
        generated_at_unix_ms,
        atlas_version: atlas_version.to_owned(),
        repo_path: repo_path.to_owned(),
        indexed_files: current_source_file_metadata(metas),
    });
    g
}


/// Directory names that scanning never enters.
pub open spec fn ignored_names() -> Seq<Seq<char>> {
    seq![
        ".git"@, "target"@, "node_modules"@, "__pycache__"@, ".venv"@, "venv"@, "dist"@, "build"@,
        ".next"@, ".svelte-kit"@, ".nuxt"@, ".output"@, ".agent-witness"@, ".agent-atlas"@, "vendor"@,
    ]
}

/// Whether a directory entry with this name is skipped during scanning
/// (version control, build output, dependencies, generated frontend output,
/// the index itself).
pub fn is_ignored(name: &str) -> (r: bool)
    ensures
        r == ignored_names().contains(name@),
{
    let names: Vec<&str> = vec![
        ".git", "target", "node_modules", "__pycache__", ".venv", "venv", "dist", "build", ".next",
        ".svelte-kit", ".nuxt", ".output", ".agent-witness", ".agent-atlas", "vendor",
    ];
    let ghost nv = names@.map_values(|x: &str| x@);
    assert(nv =~= ignored_names());
    let mut i: usize = 0;
    while i < names.len()
        invariant
            i <= names@.len(),
            nv == names@.map_values(|x: &str| x@),
            nv == ignored_names(),
            forall|j: int| 0 <= j < i ==> nv[j] != name@,
        decreases names@.len() - i,
    {
        if str_eq(names[i], name) {
            assert(nv[i as int] == name@);
            return true;
        }
        i = i + 1;
    }
    false
}

/// The records in increasing order of path (equal paths side by side).
pub open spec fn paths_nondecreasing(ms: Seq<(Seq<char>, u64, u64)>) -> bool {
    forall|i: int, j: int| 0 <= i < j < ms.len() ==> !seq_lt(ms[j].0, ms[i].0)
}

/// The file records sorted by path.
pub fn current_source_file_metadata(files: Vec<IndexedFileMeta>) -> (r: Vec<IndexedFileMeta>)
    ensures
        meta_views(r@).to_multiset() == meta_views(files@).to_multiset(),
        paths_nondecreasing(meta_views(r@)),
{
    let mut r: Vec<IndexedFileMeta> = Vec::new();
    let mut i: usize = 0;
    assert(meta_views(r@) =~= meta_views(files@).subrange(0, 0));
    while i < files.len()
        invariant
            i <= files@.len(),
            meta_views(r@).to_multiset() == meta_views(files@).subrange(0, i as int).to_multiset(),
            paths_nondecreasing(meta_views(r@)),
        decreases files@.len() - i,
    {
        let f = duplicate_meta(&files[i]);
        let ghost rv = meta_views(r@);
        let mut k: usize = 0;
        while k < r.len() && !str_lt(f.path.as_str(), r[k].path.as_str())
            invariant
                k <= r@.len(),
                rv == meta_views(r@),
                forall|a: int| 0 <= a < k ==> !seq_lt(f.path@, rv[a].0),
            decreases r@.len() - k,
        {
            k = k + 1;
        }
        let ghost fv = meta_view(f);
        r.insert(k, f);
        assert(meta_views(r@) =~= rv.insert(k as int, fv));
        proof {
            vstd::seq_lib::to_multiset_insert(rv, k as int, fv);
            let fs = meta_views(files@);
            assert(fs.subrange(0, i + 1) =~= fs.subrange(0, i as int).push(fs[i as int]));
            fs.subrange(0, i as int).to_multiset_ensures();
            let nv = meta_views(r@);
            assert forall|a: int, b: int| 0 <= a < b < nv.len() implies !seq_lt(nv[b].0, nv[a].0) by {
                let ki = k as int;
                if a < ki && b == ki {
                } else if a < ki && b > ki {
                    assert(nv[b] == rv[b - 1]);
                    if seq_lt(rv[b - 1].0, rv[a].0) {
                    }
                } else if a == ki && b > ki {
                    assert(nv[b] == rv[b - 1]);
                    assert(seq_lt(fv.0, rv[ki].0));
                    if b - 1 > ki {
                        assert(!seq_lt(rv[b - 1].0, rv[ki].0));
                    }
                    if seq_lt(rv[b - 1].0, fv.0) {
                        lemma_lt_transitive(rv[b - 1].0, fv.0, rv[ki].0);
                        if b - 1 == ki {
                            lemma_lt_irreflexive(rv[ki].0);
                        }
                    }
                } else if a > ki {
                    assert(nv[a] == rv[a - 1]);
                    assert(nv[b] == rv[b - 1]);
                } else {
                    assert(nv[a] == rv[a]);
                    assert(nv[b] == rv[b]);
                }
            }
        }
        i = i + 1;
    }
    assert(meta_views(files@).subrange(0, files@.len() as int) =~= meta_views(files@));
    r
}

} // verus!
