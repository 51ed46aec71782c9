//! The codebase graph: one node per source file, its forward dependencies,
//! the reverse-dependency index built from them, and the traversals over it.
use vstd::prelude::*;
use crate::order::{
    insert_sorted_unique, lemma_lt_asymmetric, lemma_lt_irreflexive, lemma_lt_total,
    lemma_lt_transitive, seq_lt, str_eq, str_lt, str_views, strs_view, strictly_sorted,
};
use crate::text::chars_eq;
use crate::text::chars_of;

verus! {

/// The version of the on-disk index layout.
pub const INDEX_SCHEMA_VERSION: u32 = 2;

/// The language of a source file.
#[derive(Debug, Clone, Copy, PartialEq, Eq, Structural)]
pub enum Language {
    Rust,
    TypeScript,
    JavaScript,
    Python,
    Go,
    Unknown,
}

/// The language that a file extension names.
pub open spec fn language_for_extension(ext: Seq<char>) -> Language {
    if ext == "rs"@ {
        Language::Rust
    } else if ext == "ts"@ || ext == "tsx"@ {
        Language::TypeScript
    } else if ext == "js"@ || ext == "jsx"@ || ext == "mjs"@ || ext == "cjs"@ {
        Language::JavaScript
    } else if ext == "py"@ {
        Language::Python
    } else if ext == "go"@ {
        Language::Go
    } else {
        Language::Unknown
    }
}

/// The lower-case name of a language.
pub open spec fn language_label(l: Language) -> Seq<char> {
    match l {
        Language::Rust => "rust"@,
        Language::TypeScript => "typescript"@,
        Language::JavaScript => "javascript"@,
        Language::Python => "python"@,
        Language::Go => "go"@,
        Language::Unknown => "unknown"@,
    }
}

fn ext_is(ext: &[char], lit: &str) -> (r: bool)
    ensures
        r == (ext@ == lit@),
{
    let l = chars_of(lit);
    chars_eq(ext, l.as_slice())
}

impl Language {
    /// The language of a file with extension `ext` (without the dot).
    pub fn from_extension(ext: &str) -> (r: Language)
        ensures
            r == language_for_extension(ext@),
    {
        let e = chars_of(ext);
        let e = e.as_slice();
        if ext_is(e, "rs") {
            Language::Rust
        } else if ext_is(e, "ts") || ext_is(e, "tsx") {
            Language::TypeScript
        } else if ext_is(e, "js") || ext_is(e, "jsx") || ext_is(e, "mjs") || ext_is(e, "cjs") {
            Language::JavaScript
        } else if ext_is(e, "py") {
            Language::Python
        } else if ext_is(e, "go") {
            Language::Go
        } else {
            Language::Unknown
        }
    }

    /// The lower-case name of the language.
    pub fn label(&self) -> (r: &'static str)
        ensures
            r@ == language_label(*self),
    {
        match self {
            Language::Rust => "rust",
            Language::TypeScript => "typescript",
            Language::JavaScript => "javascript",
            Language::Python => "python",
            Language::Go => "go",
            Language::Unknown => "unknown",
        }
    }
}

/// A node in the knowledge graph: one source file.
pub struct FileNode {
    /// Relative path from the repository root.
    pub path: String,
    /// The language detected from the extension.
    pub language: Language,
    /// Raw import statements found in the file.
    pub imports: Vec<String>,
    /// Resolved dependency paths (other files in the graph).
    pub deps: Vec<String>,
    /// Local imports that were expected to resolve but matched no file.
    pub unresolved_imports: Vec<String>,
    /// Imports that point outside the scanned project.
    pub external_imports: Vec<String>,
    /// Exported symbol names.
    pub exports: Vec<String>,
    /// Line count.
    pub lines: usize,
}

/// The mathematical content of a `FileNode`.
#[verifier::ext_equal]
pub struct FileNodeModel {
    pub path: Seq<char>,
    pub language: Language,
    pub imports: Seq<Seq<char>>,
    pub deps: Seq<Seq<char>>,
    pub unresolved_imports: Seq<Seq<char>>,
    pub external_imports: Seq<Seq<char>>,
    pub exports: Seq<Seq<char>>,
    pub lines: nat,
}

impl View for FileNode {
    type V = FileNodeModel;

    open spec fn view(&self) -> FileNodeModel {
        FileNodeModel {
            path: self.path@,
            language: self.language,
            imports: str_views(self.imports@),
            deps: str_views(self.deps@),
            unresolved_imports: str_views(self.unresolved_imports@),
            external_imports: str_views(self.external_imports@),
            exports: str_views(self.exports@),
            lines: self.lines as nat,
        }
    }
}

/// A copy of a list of strings.
pub fn clone_strings(v: &Vec<String>) -> (r: Vec<String>)
    ensures
        str_views(r@) == str_views(v@),
{
    let mut r: Vec<String> = Vec::new();
    let mut i: usize = 0;
    while i < v.len()
        invariant
            i <= v@.len(),
            str_views(r@) == str_views(v@).subrange(0, i as int),
        decreases v@.len() - i,
    {
        let c = v[i].clone();
        assert(c@ == v@[i as int]@);
        let ghost before = str_views(r@);
        r.push(c);
        assert(str_views(r@) =~= before.push(v@[i as int]@));
        i = i + 1;
        assert(str_views(r@) =~= str_views(v@).subrange(0, i as int));
    }
    assert(str_views(v@).subrange(0, v@.len() as int) =~= str_views(v@));
    r
}

impl FileNode {
    /// A copy of the node.
    pub fn duplicate(&self) -> (r: FileNode)
        ensures
            r@ == self@,
    {
        FileNode {
            path: self.path.clone(),
            language: self.language,
            imports: clone_strings(&self.imports),
            deps: clone_strings(&self.deps),
            unresolved_imports: clone_strings(&self.unresolved_imports),
            external_imports: clone_strings(&self.external_imports),
            exports: clone_strings(&self.exports),
            lines: self.lines,
        }
    }
}

/// One file as the index records it, to tell later whether it changed.
pub struct IndexedFileMeta {
    pub path: String,
    pub modified_unix_ms: u64,
    pub byte_len: u64,
}

/// Metadata used to decide whether the graph still matches the source tree.
pub struct IndexMetadata {
    pub schema_version: u32,
    pub generated_at_unix_ms: u64,
    pub atlas_version: String,
    pub repo_path: String,
    pub indexed_files: Vec<IndexedFileMeta>,
}

/// The files that depend on one target.
pub struct RdepsEntry {
    pub target: String,
    /// Dependents, in increasing order, each once.
    pub dependents: Vec<String>,
}

/// The dependents recorded for `k` (empty when `k` has no entry).
pub open spec fn lookup_rdeps(entries: Seq<RdepsEntry>, k: Seq<char>) -> Seq<Seq<char>>
    decreases entries.len(),
{
    if entries.len() == 0 {
        Seq::empty()
    } else if entries[0].target@ == k {
        str_views(entries[0].dependents@)
    } else {
        lookup_rdeps(entries.drop_first(), k)
    }
}

/// The targets of the entries.
pub open spec fn rdeps_targets(entries: Seq<RdepsEntry>) -> Seq<Seq<char>> {
    entries.map_values(|e: RdepsEntry| e.target@)
}

/// The paths of the files among `nodes` whose dependencies include `k`.
pub open spec fn dependents_of(nodes: Seq<FileNodeModel>, k: Seq<char>) -> Set<Seq<char>> {
    Set::new(|p: Seq<char>| exists|i: int| 0 <= i < nodes.len() && nodes[i].path == p && #[trigger] nodes[i].deps.contains(k))
}

/// The node with path `p`, if any.
pub open spec fn lookup_node(nodes: Seq<FileNodeModel>, p: Seq<char>) -> Option<FileNodeModel>
    decreases nodes.len(),
{
    if nodes.len() == 0 {
        None
    } else if nodes[0].path == p {
        Some(nodes[0])
    } else {
        lookup_node(nodes.drop_first(), p)
    }
}

/// The index at or after `i` of the first node whose path is not below `p`.
pub open spec fn insert_pos_from(nodes: Seq<FileNodeModel>, p: Seq<char>, i: int) -> int
    decreases nodes.len() - i,
{
    if i < 0 {
        0
    } else if i >= nodes.len() {
        nodes.len() as int
    } else if seq_lt(nodes[i].path, p) {
        insert_pos_from(nodes, p, i + 1)
    } else {
        i
    }
}

/// The nodes after adding `n`: it takes the place of the node with its path,
/// or goes where its path belongs in the order.
pub open spec fn insert_node(nodes: Seq<FileNodeModel>, n: FileNodeModel) -> Seq<FileNodeModel> {
    let i = insert_pos_from(nodes, n.path, 0);
    if i < nodes.len() && nodes[i].path == n.path {
        nodes.update(i, n)
    } else {
        nodes.insert(i, n)
    }
}

pub open spec fn node_paths(nodes: Seq<FileNodeModel>) -> Seq<Seq<char>> {
    nodes.map_values(|n: FileNodeModel| n.path)
}

pub proof fn lemma_insert_pos_from(nodes: Seq<FileNodeModel>, p: Seq<char>, i: int)
    requires
        0 <= i <= nodes.len(),
    ensures
        i <= insert_pos_from(nodes, p, i) <= nodes.len(),
        forall|j: int| i <= j < insert_pos_from(nodes, p, i) ==> seq_lt(#[trigger] nodes[j].path, p),
        insert_pos_from(nodes, p, i) < nodes.len() ==> !seq_lt(nodes[insert_pos_from(nodes, p, i)].path, p),
    decreases nodes.len() - i,
{
    if i < nodes.len() && seq_lt(nodes[i].path, p) {
        lemma_insert_pos_from(nodes, p, i + 1);
    }
}

/// Where paths are unique, the node found for `p` is the one at the index
/// that holds `p`.
pub proof fn lemma_lookup_node_at(nodes: Seq<FileNodeModel>, p: Seq<char>, j: int)
    requires
        node_paths(nodes).no_duplicates(),
        0 <= j < nodes.len(),
        nodes[j].path == p,
    ensures
        lookup_node(nodes, p) == Some(nodes[j]),
    decreases nodes.len(),
{
    if j > 0 {
        assert(node_paths(nodes)[0] != node_paths(nodes)[j]);
        let rest = nodes.drop_first();
        assert(node_paths(rest) =~= node_paths(nodes).drop_first());
        assert(rest[j - 1] == nodes[j]);
        lemma_lookup_node_at(rest, p, j - 1);
    }
}

/// No node is found for a path that no node has.
pub proof fn lemma_lookup_node_absent(nodes: Seq<FileNodeModel>, p: Seq<char>)
    requires
        forall|j: int| 0 <= j < nodes.len() ==> nodes[j].path != p,
    ensures
        lookup_node(nodes, p) is None,
    decreases nodes.len(),
{
    if nodes.len() > 0 {
        let rest = nodes.drop_first();
        assert forall|j: int| 0 <= j < rest.len() implies rest[j].path != p by {
            assert(rest[j] == nodes[j + 1]);
        }
        lemma_lookup_node_absent(rest, p);
    }
}

/// Strictly sorted paths hold no duplicates.
pub proof fn lemma_sorted_no_duplicates(s: Seq<Seq<char>>)
    requires
        strictly_sorted(s),
    ensures
        s.no_duplicates(),
{
    assert forall|i: int, j: int| 0 <= i < s.len() && 0 <= j < s.len() && i != j implies s[i] != s[j] by {
        if i < j {
            lemma_lt_irreflexive(s[i]);
        } else {
            lemma_lt_irreflexive(s[j]);
        }
    }
}

/// Adding a node keeps the paths sorted and unique.
pub proof fn lemma_insert_node_sorted(nodes: Seq<FileNodeModel>, n: FileNodeModel)
    requires
        strictly_sorted(node_paths(nodes)),
    ensures
        strictly_sorted(node_paths(insert_node(nodes, n))),
{
    lemma_insert_pos_from(nodes, n.path, 0);
    let i = insert_pos_from(nodes, n.path, 0);
    let ps = node_paths(nodes);
    let rs = node_paths(insert_node(nodes, n));
    if i < nodes.len() && nodes[i].path == n.path {
        assert(rs =~= ps);
    } else {
        assert(rs =~= ps.insert(i, n.path));
        if i < nodes.len() {
            lemma_lt_total(nodes[i].path, n.path);
            assert(seq_lt(n.path, ps[i]));
        }
        assert forall|a: int, b: int| 0 <= a < b < rs.len() implies seq_lt(rs[a], rs[b]) by {
            if a < i {
                assert(rs[a] == ps[a]);
                assert(seq_lt(ps[a], n.path));
            }
            if b > i && b - 1 > i {
                assert(seq_lt(ps[i], ps[b - 1]));
                lemma_lt_transitive(n.path, ps[i], ps[b - 1]);
            }
            if a < i && b == i {
            } else if a < i && b > i {
                assert(rs[b] == ps[b - 1]);
                lemma_lt_transitive(ps[a], n.path, ps[b - 1]);
            } else if a == i && b > i {
                assert(rs[b] == ps[b - 1]);
            } else if a > i {
                assert(rs[a] == ps[a - 1]);
                assert(rs[b] == ps[b - 1]);
            } else {
                assert(rs[a] == ps[a]);
                assert(rs[b] == ps[b]);
            }
        }
    }
}

/// After a node is added, looking up its path gives the node, and every other
/// path gives what it gave before.
pub proof fn law_added_node_is_found(nodes: Seq<FileNodeModel>, n: FileNodeModel, p: Seq<char>)
    requires
        strictly_sorted(node_paths(nodes)),
    ensures
        lookup_node(insert_node(nodes, n), p) == (if p == n.path {
            Some(n)
        } else {
            lookup_node(nodes, p)
        }),
{
    lemma_insert_node_sorted(nodes, n);
    lemma_insert_pos_from(nodes, n.path, 0);
    lemma_sorted_no_duplicates(node_paths(nodes));
    lemma_sorted_no_duplicates(node_paths(insert_node(nodes, n)));
    let i = insert_pos_from(nodes, n.path, 0);
    let r = insert_node(nodes, n);
    if p == n.path {
        lemma_lookup_node_at(r, p, i);
    } else if exists|j: int| 0 <= j < nodes.len() && nodes[j].path == p {
        let j = choose|j: int| 0 <= j < nodes.len() && nodes[j].path == p;
        lemma_lookup_node_at(nodes, p, j);
        if i < nodes.len() && nodes[i].path == n.path {
            lemma_lookup_node_at(r, p, j);
        } else if j < i {
            lemma_lookup_node_at(r, p, j);
        } else {
            assert(r[j + 1] == nodes[j]);
            lemma_lookup_node_at(r, p, j + 1);
        }
    } else {
        lemma_lookup_node_absent(nodes, p);
        assert forall|j: int| 0 <= j < r.len() implies r[j].path != p by {
            if i < nodes.len() && nodes[i].path == n.path {
                if j != i {
                    assert(r[j] == nodes[j]);
                }
            } else if j < i {
                assert(r[j] == nodes[j]);
            } else if j > i {
                assert(r[j] == nodes[j - 1]);
            }
        }
        lemma_lookup_node_absent(r, p);
    }
}

pub proof fn lemma_lookup_rdeps_at(entries: Seq<RdepsEntry>, k: Seq<char>, j: int)
    requires
        rdeps_targets(entries).no_duplicates(),
        0 <= j < entries.len(),
        entries[j].target@ == k,
    ensures
        lookup_rdeps(entries, k) == str_views(entries[j].dependents@),
    decreases entries.len(),
{
    if j > 0 {
        assert(rdeps_targets(entries)[0] != rdeps_targets(entries)[j]);
        let rest = entries.drop_first();
        assert(rdeps_targets(rest) =~= rdeps_targets(entries).drop_first());
        assert(rest[j - 1] == entries[j]);
        lemma_lookup_rdeps_at(rest, k, j - 1);
    }
}

pub proof fn lemma_lookup_rdeps_absent(entries: Seq<RdepsEntry>, k: Seq<char>)
    requires
        forall|j: int| 0 <= j < entries.len() ==> entries[j].target@ != k,
    ensures
        lookup_rdeps(entries, k) == Seq::<Seq<char>>::empty(),
    decreases entries.len(),
{
    if entries.len() > 0 {
        let rest = entries.drop_first();
        assert forall|j: int| 0 <= j < rest.len() implies rest[j].target@ != k by {
            assert(rest[j] == entries[j + 1]);
        }
        lemma_lookup_rdeps_absent(rest, k);
    }
}

/// The lookup of `k` after the entries changed only at index `j`, whose target
/// stays `t`: only `t` can look different.
pub proof fn lemma_lookup_rdeps_other(entries: Seq<RdepsEntry>, later: Seq<RdepsEntry>, k: Seq<char>)
    requires
        rdeps_targets(entries).no_duplicates(),
        rdeps_targets(later).no_duplicates(),
        forall|j: int| 0 <= j < entries.len() && entries[j].target@ == k ==> j < later.len() && later[j] == entries[j],
        forall|j: int| 0 <= j < later.len() && later[j].target@ == k ==> j < entries.len() && later[j] == entries[j],
    ensures
        lookup_rdeps(later, k) == lookup_rdeps(entries, k),
{
    if exists|j: int| 0 <= j < entries.len() && entries[j].target@ == k {
        let j = choose|j: int| 0 <= j < entries.len() && entries[j].target@ == k;
        lemma_lookup_rdeps_at(entries, k, j);
        lemma_lookup_rdeps_at(later, k, j);
    } else {
        lemma_lookup_rdeps_absent(entries, k);
        assert forall|j: int| 0 <= j < later.len() implies later[j].target@ != k by {
            if later[j].target@ == k {
                assert(entries[j].target@ == k);
            }
        }
        lemma_lookup_rdeps_absent(later, k);
    }
}

/// The paths of the first `i` nodes whose dependencies include `k`.
pub open spec fn dependents_upto(nodes: Seq<FileNodeModel>, i: int, k: Seq<char>) -> Set<Seq<char>> {
    Set::new(|p: Seq<char>| exists|a: int| 0 <= a < i && nodes[a].path == p && #[trigger] nodes[a].deps.contains(k))
}

/// The entries are well formed: one per target, dependents sorted and unique.
pub open spec fn rdeps_wf(entries: Seq<RdepsEntry>) -> bool {
    &&& rdeps_targets(entries).no_duplicates()
    &&& forall|i: int| 0 <= i < entries.len() ==> strictly_sorted(
        #[trigger] str_views(entries[i].dependents@),
    )
}

/// The index in its canonical form: targets in increasing order, and no
/// target without a dependent.
pub open spec fn rdeps_canonical(entries: Seq<RdepsEntry>) -> bool {
    &&& strictly_sorted(rdeps_targets(entries))
    &&& forall|i: int| 0 <= i < entries.len() ==> #[trigger] entries[i].dependents@.len() > 0
}

/// The mathematical content of the index: each target with its dependents.
pub open spec fn rdeps_model(entries: Seq<RdepsEntry>) -> Seq<(Seq<char>, Seq<Seq<char>>)> {
    entries.map_values(|e: RdepsEntry| (e.target@, str_views(e.dependents@)))
}

proof fn lemma_insert_strictly_sorted(s: Seq<Seq<char>>, i: int, x: Seq<char>)
    requires
        strictly_sorted(s),
        0 <= i <= s.len(),
        forall|j: int| 0 <= j < i ==> seq_lt(#[trigger] s[j], x),
        forall|j: int| i <= j < s.len() ==> seq_lt(x, #[trigger] s[j]),
    ensures
        strictly_sorted(s.insert(i, x)),
{
    let t = s.insert(i, x);
    assert forall|a: int, b: int| 0 <= a < b < t.len() implies seq_lt(t[a], t[b]) by {
        if a < i && b == i {
            assert(t[a] == s[a]);
        } else if a < i && b > i {
            assert(t[a] == s[a]);
            assert(t[b] == s[b - 1]);
        } else if a == i {
            assert(t[b] == s[b - 1]);
        } else if a > i {
            assert(t[a] == s[a - 1]);
            assert(t[b] == s[b - 1]);
        } else {
            assert(t[a] == s[a]);
            assert(t[b] == s[b]);
        }
    }
}

/// Inserting an entry for another target leaves the lookup of `k` as it was.
proof fn lemma_lookup_rdeps_insert(entries: Seq<RdepsEntry>, pos: int, e: RdepsEntry, k: Seq<char>)
    requires
        0 <= pos <= entries.len(),
        rdeps_targets(entries).no_duplicates(),
        rdeps_targets(entries.insert(pos, e)).no_duplicates(),
        e.target@ != k,
    ensures
        lookup_rdeps(entries.insert(pos, e), k) == lookup_rdeps(entries, k),
{
    let later = entries.insert(pos, e);
    if exists|j: int| 0 <= j < entries.len() && entries[j].target@ == k {
        let j = choose|j: int| 0 <= j < entries.len() && entries[j].target@ == k;
        lemma_lookup_rdeps_at(entries, k, j);
        if j < pos {
            assert(later[j] == entries[j]);
            lemma_lookup_rdeps_at(later, k, j);
        } else {
            assert(later[j + 1] == entries[j]);
            lemma_lookup_rdeps_at(later, k, j + 1);
        }
    } else {
        lemma_lookup_rdeps_absent(entries, k);
        assert forall|j: int| 0 <= j < later.len() implies later[j].target@ != k by {
            if j < pos {
                assert(later[j] == entries[j]);
            } else if j > pos {
                assert(later[j] == entries[j - 1]);
            }
        }
        lemma_lookup_rdeps_absent(later, k);
    }
}

/// Two canonical, well-formed indexes that record the same dependents for
/// every target are the same index.
pub proof fn lemma_rdeps_canonical_unique(a: Seq<RdepsEntry>, b: Seq<RdepsEntry>)
    requires
        rdeps_wf(a),
        rdeps_wf(b),
        rdeps_canonical(a),
        rdeps_canonical(b),
        forall|k: Seq<char>| #[trigger] lookup_rdeps(a, k).to_set() == lookup_rdeps(b, k).to_set(),
    ensures
        rdeps_model(a) == rdeps_model(b),
{
    let ta = rdeps_targets(a);
    let tb = rdeps_targets(b);
    assert forall|t: Seq<char>| ta.to_set().contains(t) implies tb.to_set().contains(t) by {
        let i = choose|i: int| 0 <= i < ta.len() && ta[i] == t;
        lemma_lookup_rdeps_at(a, t, i);
        assert(a[i].dependents@.len() > 0);
        assert(lookup_rdeps(a, t).to_set().contains(lookup_rdeps(a, t)[0]));
        if !tb.contains(t) {
            assert forall|j: int| 0 <= j < b.len() implies b[j].target@ != t by {
                assert(tb[j] == b[j].target@);
            }
            lemma_lookup_rdeps_absent(b, t);
            assert(lookup_rdeps(b, t).to_set() =~= Set::<Seq<char>>::empty());
        }
    }
    assert forall|t: Seq<char>| tb.to_set().contains(t) implies ta.to_set().contains(t) by {
        let i = choose|i: int| 0 <= i < tb.len() && tb[i] == t;
        lemma_lookup_rdeps_at(b, t, i);
        assert(b[i].dependents@.len() > 0);
        assert(lookup_rdeps(b, t).to_set().contains(lookup_rdeps(b, t)[0]));
        if !ta.contains(t) {
            assert forall|j: int| 0 <= j < a.len() implies a[j].target@ != t by {
                assert(ta[j] == a[j].target@);
            }
            lemma_lookup_rdeps_absent(a, t);
            assert(lookup_rdeps(a, t).to_set() =~= Set::<Seq<char>>::empty());
        }
    }
    assert(ta.to_set() =~= tb.to_set());
    crate::order::lemma_sorted_same_set_equal(ta, tb);
    assert forall|i: int| 0 <= i < a.len() implies #[trigger] rdeps_model(a)[i] == rdeps_model(b)[i] by {
        assert(ta[i] == tb[i]);
        let t = a[i].target@;
        lemma_lookup_rdeps_at(a, t, i);
        lemma_lookup_rdeps_at(b, t, i);
        crate::order::lemma_sorted_same_set_equal(str_views(a[i].dependents@), str_views(b[i].dependents@));
    }
    assert(rdeps_model(a) =~= rdeps_model(b));
}

/// Records that `dependent` depends on `target`, keeping the targets in
/// increasing order.
fn add_dependent(entries: &mut Vec<RdepsEntry>, target: &String, dependent: &String)
    requires
        rdeps_wf(old(entries)@),
        rdeps_canonical(old(entries)@),
    ensures
        rdeps_wf(final(entries)@),
        rdeps_canonical(final(entries)@),
        forall|k: Seq<char>| #[trigger] lookup_rdeps(final(entries)@, k).to_set() == (if k == target@ {
            lookup_rdeps(old(entries)@, k).to_set().insert(dependent@)
        } else {
            lookup_rdeps(old(entries)@, k).to_set()
        }),
{
    let ghost old_entries = entries@;
    let ghost ot = rdeps_targets(old_entries);
    let mut idx: usize = 0;
    while idx < entries.len() && str_lt(entries[idx].target.as_str(), target.as_str())
        invariant
            idx <= entries@.len(),
            entries@ == old_entries,
            ot == rdeps_targets(old_entries),
            forall|j: int| 0 <= j < idx ==> seq_lt(#[trigger] ot[j], target@),
        decreases entries@.len() - idx,
    {
        assert(ot[idx as int] == entries@[idx as int].target@);
        idx = idx + 1;
    }
    if idx < entries.len() && str_eq(entries[idx].target.as_str(), target.as_str()) {
        let mut deps = clone_strings(&entries[idx].dependents);
        insert_sorted_unique(&mut deps, dependent.clone());
        let t = entries[idx].target.clone();
        let ghost dv = str_views(deps@);
        entries.set(idx, RdepsEntry { target: t, dependents: deps });
        let ghost later = entries@;
        assert(rdeps_targets(later) =~= rdeps_targets(old_entries));
        assert(dv.to_set().contains(dependent@));
        assert(later[idx as int].dependents@.len() > 0) by {
            assert(str_views(later[idx as int].dependents@).len() == later[idx as int].dependents@.len());
        }
        assert forall|i: int| 0 <= i < later.len() implies #[trigger] later[i].dependents@.len() > 0 by {
            if i != idx {
                assert(later[i] == old_entries[i]);
            }
        }
        assert forall|k: Seq<char>| #[trigger] lookup_rdeps(later, k).to_set() == (if k == target@ {
            lookup_rdeps(old_entries, k).to_set().insert(dependent@)
        } else {
            lookup_rdeps(old_entries, k).to_set()
        }) by {
            if k == target@ {
                lemma_lookup_rdeps_at(old_entries, k, idx as int);
                lemma_lookup_rdeps_at(later, k, idx as int);
            } else {
                lemma_lookup_rdeps_other(old_entries, later, k);
            }
        }
    } else {
        proof {
            assert forall|j: int| idx <= j < ot.len() implies seq_lt(target@, #[trigger] ot[j]) by {
                assert(!seq_lt(ot[idx as int], target@));
                assert(ot[idx as int] != target@);
                lemma_lt_total(ot[idx as int], target@);
                if j > idx {
                    lemma_lt_transitive(target@, ot[idx as int], ot[j]);
                }
            }
            lemma_insert_strictly_sorted(ot, idx as int, target@);
        }
        let mut deps: Vec<String> = Vec::new();
        deps.push(dependent.clone());
        assert(str_views(deps@) =~= seq![dependent@]);
        let e = RdepsEntry { target: target.clone(), dependents: deps };
        let ghost ev = e;
        entries.insert(idx, e);
        let ghost later = entries@;
        assert(later == old_entries.insert(idx as int, ev));
        assert(rdeps_targets(later) =~= ot.insert(idx as int, target@));
        proof {
            lemma_sorted_no_duplicates(rdeps_targets(later));
        }
        assert forall|i: int| 0 <= i < later.len() implies strictly_sorted(#[trigger] str_views(later[i].dependents@)) by {
            if i < idx {
                assert(later[i] == old_entries[i]);
            } else if i > idx {
                assert(later[i] == old_entries[i - 1]);
            }
        }
        assert forall|i: int| 0 <= i < later.len() implies #[trigger] later[i].dependents@.len() > 0 by {
            if i < idx {
                assert(later[i] == old_entries[i]);
            } else if i > idx {
                assert(later[i] == old_entries[i - 1]);
            }
        }
        assert forall|k: Seq<char>| #[trigger] lookup_rdeps(later, k).to_set() == (if k == target@ {
            lookup_rdeps(old_entries, k).to_set().insert(dependent@)
        } else {
            lookup_rdeps(old_entries, k).to_set()
        }) by {
            if k == target@ {
                assert forall|j: int| 0 <= j < old_entries.len() implies old_entries[j].target@ != k by {
                    assert(ot[j] == old_entries[j].target@);
                    lemma_lt_irreflexive(k);
                }
                lemma_lookup_rdeps_absent(old_entries, k);
                lemma_lookup_rdeps_at(later, k, idx as int);
                let one = seq![dependent@];
                assert forall|y: Seq<char>| one.to_set().contains(y) <==> y == dependent@ by {
                    if y == dependent@ {
                        assert(one[0] == y);
                    }
                }
                assert(one.to_set() =~= Set::<Seq<char>>::empty().insert(dependent@));
                assert(Seq::<Seq<char>>::empty().to_set() =~= Set::<Seq<char>>::empty());
            } else {
                lemma_lookup_rdeps_insert(old_entries, idx as int, ev, k);
            }
        }
    }
}

/// A single entry in a blast-radius result.
pub struct BlastEntry {
    /// The affected file.
    pub path: String,
    /// Distance from the source file (1 = direct dependent).
    pub depth: usize,
    /// The file through which this one entered the blast radius.
    pub via: String,
    /// How many files depend directly on this one.
    pub fan_out: usize,
}

/// `q` is reached from `src` in at most `k` steps, each step going from a
/// file to one of its dependents in the index `rd`.
pub open spec fn reach_within(rd: Seq<RdepsEntry>, src: Seq<char>, q: Seq<char>, k: nat) -> bool
    decreases k,
{
    q == src || (k > 0 && (reach_within(rd, src, q, (k - 1) as nat) || exists|v: Seq<char>|
        reach_within(rd, src, v, (k - 1) as nat) && #[trigger] lookup_rdeps(rd, v).contains(q)))
}

/// The fewest steps from `src` to `q` are exactly `d`.
pub open spec fn at_distance(rd: Seq<RdepsEntry>, src: Seq<char>, q: Seq<char>, d: nat) -> bool {
    if d == 0 {
        q == src
    } else {
        reach_within(rd, src, q, d) && !reach_within(rd, src, q, (d - 1) as nat)
    }
}

/// What a blast-radius entry claims of the graph.
pub open spec fn blast_entry_valid(
    rd: Seq<RdepsEntry>,
    src: Seq<char>,
    max_depth: nat,
    e: BlastEntry,
) -> bool {
    &&& 1 <= e.depth <= max_depth
    &&& at_distance(rd, src, e.path@, e.depth as nat)
    &&& at_distance(rd, src, e.via@, (e.depth - 1) as nat)
    &&& lookup_rdeps(rd, e.via@).contains(e.path@)
    &&& e.fan_out == lookup_rdeps(rd, e.path@).len()
}

/// The files of `rs` not in `seen`, in order, each once.
pub open spec fn newly_found(rs: Seq<Seq<char>>, seen: Seq<Seq<char>>) -> Seq<Seq<char>>
    decreases rs.len(),
{
    if rs.len() == 0 {
        Seq::empty()
    } else {
        let b = newly_found(rs.drop_last(), seen);
        b + if (seen + b).contains(rs.last()) {
            Seq::empty()
        } else {
            seq![rs.last()]
        }
    }
}

/// The files one breadth-first step finds from `frontier`, in the order it
/// finds them: the recorded dependents of each file of the frontier in turn,
/// skipping those already seen.
pub open spec fn next_level(rd: Seq<RdepsEntry>, frontier: Seq<Seq<char>>, seen: Seq<Seq<char>>) -> Seq<Seq<char>>
    decreases frontier.len(),
{
    if frontier.len() == 0 {
        Seq::empty()
    } else {
        let b = next_level(rd, frontier.drop_last(), seen);
        b + newly_found(lookup_rdeps(rd, frontier.last()), seen + b)
    }
}

/// The frontier and the files seen after `d` breadth-first steps from `src`,
/// each in the order the search found them.
pub open spec fn bfs_step(rd: Seq<RdepsEntry>, src: Seq<char>, d: nat) -> (Seq<Seq<char>>, Seq<Seq<char>>)
    decreases d,
{
    if d == 0 {
        (seq![src], seq![src])
    } else {
        let p = bfs_step(rd, src, (d - 1) as nat);
        let n = next_level(rd, p.0, p.1);
        (n, p.1 + n)
    }
}

/// The first file of `level` among whose recorded dependents `q` is.
pub open spec fn first_parent(rd: Seq<RdepsEntry>, level: Seq<Seq<char>>, q: Seq<char>) -> Seq<char>
    decreases level.len(),
{
    if level.len() == 0 {
        Seq::empty()
    } else if lookup_rdeps(rd, level[0]).contains(q) {
        level[0]
    } else {
        first_parent(rd, level.drop_first(), q)
    }
}

proof fn lemma_first_parent_at(rd: Seq<RdepsEntry>, level: Seq<Seq<char>>, q: Seq<char>, i: int)
    requires
        0 <= i < level.len(),
        lookup_rdeps(rd, level[i]).contains(q),
        forall|j: int| 0 <= j < i ==> !lookup_rdeps(rd, #[trigger] level[j]).contains(q),
    ensures
        first_parent(rd, level, q) == level[i],
    decreases i,
{
    if i > 0 {
        let rest = level.drop_first();
        assert(!lookup_rdeps(rd, level[0]).contains(q));
        assert forall|j: int| 0 <= j < i - 1 implies !lookup_rdeps(rd, #[trigger] rest[j]).contains(q) by {
            assert(rest[j] == level[j + 1]);
        }
        assert(rest[i - 1] == level[i]);
        lemma_first_parent_at(rd, rest, q, i - 1);
    }
}

/// Some entry of `s` is about `q`.
pub open spec fn blast_has_path(s: Seq<BlastEntry>, q: Seq<char>) -> bool {
    exists|i: int| 0 <= i < s.len() && #[trigger] s[i].path@ == q
}

/// One of the first `x` strings of `s` is `q`.
pub open spec fn prefix_has(s: Seq<String>, x: int, q: Seq<char>) -> bool {
    exists|y: int| 0 <= y < x && #[trigger] s[y]@ == q
}

/// Entries ordered by depth, then by path.
pub open spec fn blast_lt(a: BlastEntry, b: BlastEntry) -> bool {
    a.depth < b.depth || (a.depth == b.depth && seq_lt(a.path@, b.path@))
}

pub open spec fn blast_sorted(s: Seq<BlastEntry>) -> bool {
    forall|i: int, j: int| 0 <= i < j < s.len() ==> blast_lt(s[i], s[j])
}

pub proof fn lemma_reach_monotone(rd: Seq<RdepsEntry>, src: Seq<char>, q: Seq<char>, k: nat, m: nat)
    requires
        k <= m,
        reach_within(rd, src, q, k),
    ensures
        reach_within(rd, src, q, m),
    decreases m - k,
{
    if k < m {
        assert(reach_within(rd, src, q, (k + 1) as nat));
        lemma_reach_monotone(rd, src, q, (k + 1) as nat, m);
    }
}

/// A file first reached at `d + 1` has a dependency edge from a file first
/// reached at `d`.
pub proof fn lemma_next_level_source(rd: Seq<RdepsEntry>, src: Seq<char>, q: Seq<char>, d: nat)
    requires
        at_distance(rd, src, q, d + 1),
    ensures
        exists|v: Seq<char>| at_distance(rd, src, v, d) && #[trigger] lookup_rdeps(rd, v).contains(q),
{
    let v = choose|v: Seq<char>| reach_within(rd, src, v, d) && #[trigger] lookup_rdeps(rd, v).contains(q);
    if d > 0 && reach_within(rd, src, v, (d - 1) as nat) {
        assert(reach_within(rd, src, q, d));
    }
    if d == 0 {
        assert(v == src);
    }
    assert(at_distance(rd, src, v, d));
}

/// When no file is first reached at `d` (d > 0), nothing new is reached later.
pub proof fn lemma_reach_stable(rd: Seq<RdepsEntry>, src: Seq<char>, d: nat, k: nat, q: Seq<char>)
    requires
        forall|x: Seq<char>| !#[trigger] at_distance(rd, src, x, d),
        d <= k,
        reach_within(rd, src, q, k),
    ensures
        reach_within(rd, src, q, d),
    decreases k,
{
    if k > d {
        if reach_within(rd, src, q, (k - 1) as nat) {
            lemma_reach_stable(rd, src, d, (k - 1) as nat, q);
        } else if q != src {
            let v = choose|v: Seq<char>|
                reach_within(rd, src, v, (k - 1) as nat) && #[trigger] lookup_rdeps(rd, v).contains(q);
            lemma_reach_stable(rd, src, d, (k - 1) as nat, v);
            if d > 0 && reach_within(rd, src, v, (d - 1) as nat) {
                assert(reach_within(rd, src, q, d));
            } else if d > 0 {
                assert(at_distance(rd, src, v, d));
            } else {
                assert(at_distance(rd, src, src, 0));
            }
            assert(reach_within(rd, src, q, (d + 1) as nat));
            if !reach_within(rd, src, q, d) {
                assert(at_distance(rd, src, q, d + 1));
                lemma_next_level_source(rd, src, q, d);
                let w = choose|w: Seq<char>| at_distance(rd, src, w, d) && #[trigger] lookup_rdeps(rd, w).contains(q);
                assert(at_distance(rd, src, w, d));
            }
        }
    }
}

/// Everything that reaches `src` within `k` steps, other than `src`.
pub open spec fn blast_set(rd: Seq<RdepsEntry>, src: Seq<char>, k: nat) -> Set<Seq<char>> {
    Set::new(|q: Seq<char>| q != src && reach_within(rd, src, q, k))
}

pub open spec fn blast_paths(s: Seq<BlastEntry>) -> Seq<Seq<char>> {
    s.map_values(|e: BlastEntry| e.path@)
}

/// A file is first reached at one distance only.
pub proof fn lemma_at_distance_unique(rd: Seq<RdepsEntry>, src: Seq<char>, q: Seq<char>, d1: nat, d2: nat)
    requires
        at_distance(rd, src, q, d1),
        at_distance(rd, src, q, d2),
    ensures
        d1 == d2,
{
    if d1 < d2 {
        if d1 == 0 {
            assert(reach_within(rd, src, q, 0));
        }
        lemma_reach_monotone(rd, src, q, d1, (d2 - 1) as nat);
    } else if d2 < d1 {
        if d2 == 0 {
            assert(reach_within(rd, src, q, 0));
        }
        lemma_reach_monotone(rd, src, q, d2, (d1 - 1) as nat);
    }
}

/// A sorted list of valid entries names each file once, and holds as many
/// entries as the files it names.
pub proof fn lemma_blast_paths_unique(rd: Seq<RdepsEntry>, src: Seq<char>, max: nat, s: Seq<BlastEntry>)
    requires
        blast_sorted(s),
        forall|i: int| 0 <= i < s.len() ==> blast_entry_valid(rd, src, max, #[trigger] s[i]),
    ensures
        blast_paths(s).no_duplicates(),
        blast_paths(s).to_set().len() == s.len(),
{
    let ps = blast_paths(s);
    assert forall|i: int, j: int| 0 <= i < ps.len() && 0 <= j < ps.len() && i != j implies ps[i] != ps[j] by {
        if ps[i] == ps[j] {
            assert(blast_entry_valid(rd, src, max, s[i]));
            assert(blast_entry_valid(rd, src, max, s[j]));
            lemma_at_distance_unique(rd, src, ps[i], s[i].depth as nat, s[j].depth as nat);
            if i < j {
                assert(blast_lt(s[i], s[j]));
                lemma_lt_irreflexive(ps[i]);
            } else {
                assert(blast_lt(s[j], s[i]));
                lemma_lt_irreflexive(ps[i]);
            }
        }
    }
    ps.unique_seq_to_set();
}

/// Whether `x` is one of the strings of `v`.
pub fn contains_string(v: &Vec<String>, x: &String) -> (r: bool)
    ensures
        r == str_views(v@).contains(x@),
{
    let mut i: usize = 0;
    while i < v.len()
        invariant
            i <= v@.len(),
            forall|j: int| 0 <= j < i ==> str_views(v@)[j] != x@,
        decreases v@.len() - i,
    {
        if str_eq(v[i].as_str(), x.as_str()) {
            assert(str_views(v@)[i as int] == x@);
            return true;
        }
        i = i + 1;
    }
    false
}

/// Adds an entry to a list ordered by depth, then path.
fn insert_blast_entry(v: &mut Vec<BlastEntry>, e: BlastEntry) -> (pos: usize)
    requires
        blast_sorted(old(v)@),
        forall|i: int| 0 <= i < old(v)@.len() ==> old(v)@[i].path@ != e.path@,
    ensures
        pos <= old(v)@.len(),
        final(v)@ == old(v)@.insert(pos as int, e),
        blast_sorted(final(v)@),
{
    let ghost ov = v@;
    let mut i: usize = 0;
    while i < v.len() && (v[i].depth < e.depth || (v[i].depth == e.depth && str_lt(
        v[i].path.as_str(),
        e.path.as_str(),
    )))
        invariant
            i <= v@.len(),
            v@ == ov,
            forall|j: int| 0 <= j < i ==> blast_lt(ov[j], e),
        decreases v@.len() - i,
    {
        i = i + 1;
    }
    proof {
        if i < ov.len() {
            lemma_lt_total(ov[i as int].path@, e.path@);
            assert(blast_lt(e, ov[i as int]));
        }
        assert forall|a: int, b: int| 0 <= a < b < ov.len() implies blast_lt(ov[a], ov[b]) by {}
    }
    let ghost ev = e;
    v.insert(i, e);
    let ghost nv = v@;
    assert forall|a: int, b: int| 0 <= a < b < nv.len() implies blast_lt(nv[a], nv[b]) by {
        let ia = i as int;
        if b > ia && b - 1 > ia {
            assert(blast_lt(ov[ia], ov[b - 1]));
            if ov[ia].depth == ev.depth && ov[b - 1].depth == ev.depth {
                lemma_lt_transitive(ev.path@, ov[ia].path@, ov[b - 1].path@);
            }
        }
        if a < ia && b > ia {
            assert(blast_lt(ov[a], ev));
            if ov[a].depth == ev.depth && ov[b - 1].depth == ev.depth {
                lemma_lt_transitive(ov[a].path@, ev.path@, ov[b - 1].path@);
            }
        }
        if a > ia {
            assert(nv[a] == ov[a - 1]);
            assert(nv[b] == ov[b - 1]);
        } else if b < ia {
            assert(nv[a] == ov[a]);
            assert(nv[b] == ov[b]);
        } else if a < ia && b > ia {
            assert(nv[a] == ov[a]);
            assert(nv[b] == ov[b - 1]);
        }
    }
    i
}

/// A quantity of a node that the statistics add up.
#[derive(Clone, Copy)]
pub enum NodeMeasure {
    Lines,
    Deps,
    UnresolvedImports,
    ExternalImports,
}

pub open spec fn measure(n: FileNodeModel, m: NodeMeasure) -> nat {
    match m {
        NodeMeasure::Lines => n.lines,
        NodeMeasure::Deps => n.deps.len(),
        NodeMeasure::UnresolvedImports => n.unresolved_imports.len(),
        NodeMeasure::ExternalImports => n.external_imports.len(),
    }
}

/// The total of a measure over the nodes.
pub open spec fn total(ns: Seq<FileNodeModel>, m: NodeMeasure) -> nat
    decreases ns.len(),
{
    if ns.len() == 0 {
        0
    } else {
        total(ns.drop_last(), m) + measure(ns.last(), m)
    }
}

/// How many nodes are in language `l`.
pub open spec fn count_language(ns: Seq<FileNodeModel>, l: Language) -> nat
    decreases ns.len(),
{
    if ns.len() == 0 {
        0
    } else {
        count_language(ns.drop_last(), l) + if ns.last().language == l { 1nat } else { 0nat }
    }
}

pub proof fn lemma_total_prefix(ns: Seq<FileNodeModel>, m: NodeMeasure, i: int)
    requires
        0 <= i <= ns.len(),
    ensures
        total(ns.subrange(0, i), m) <= total(ns, m),
    decreases ns.len() - i,
{
    if i < ns.len() {
        lemma_total_prefix(ns, m, i + 1);
        assert(ns.subrange(0, i + 1).drop_last() =~= ns.subrange(0, i));
    } else {
        assert(ns.subrange(0, i) =~= ns);
    }
}

pub proof fn lemma_count_language_bound(ns: Seq<FileNodeModel>, l: Language)
    ensures
        count_language(ns, l) <= ns.len(),
    decreases ns.len(),
{
    if ns.len() > 0 {
        lemma_count_language_bound(ns.drop_last(), l);
    }
}

/// The number of files in one language.
pub struct LanguageCount {
    pub language: String,
    pub count: usize,
}

/// The entry for language `l` when it has files.
pub open spec fn count_entry(ns: Seq<FileNodeModel>, l: Language) -> Seq<(Seq<char>, nat)> {
    if count_language(ns, l) > 0 {
        seq![(language_label(l), count_language(ns, l))]
    } else {
        Seq::empty()
    }
}

/// The languages that have files, in the order the languages are declared,
/// each with its number of files.
pub open spec fn language_counts(ns: Seq<FileNodeModel>) -> Seq<(Seq<char>, nat)> {
    count_entry(ns, Language::Rust) + count_entry(ns, Language::TypeScript) + count_entry(
        ns,
        Language::JavaScript,
    ) + count_entry(ns, Language::Python) + count_entry(ns, Language::Go) + count_entry(
        ns,
        Language::Unknown,
    )
}

pub open spec fn count_views(v: Seq<LanguageCount>) -> Seq<(Seq<char>, nat)> {
    v.map_values(|c: LanguageCount| (c.language@, c.count as nat))
}

/// Each count is at least the next one.
pub open spec fn counts_descending(s: Seq<(Seq<char>, nat)>) -> bool {
    forall|i: int, j: int| 0 <= i < j < s.len() ==> s[i].1 >= s[j].1
}

/// The same language counts, most files first (the order among equal counts
/// is left open).
pub fn languages_by_count(counts: &Vec<LanguageCount>) -> (r: Vec<LanguageCount>)
    ensures
        count_views(r@).to_multiset() == count_views(counts@).to_multiset(),
        counts_descending(count_views(r@)),
{
    let ghost all = count_views(counts@);
    let mut r: Vec<LanguageCount> = Vec::new();
    let mut i: usize = 0;
    assert(count_views(r@) =~= all.subrange(0, 0));
    while i < counts.len()
        invariant
            i <= all.len(),
            all == count_views(counts@),
            count_views(r@).to_multiset() == all.subrange(0, i as int).to_multiset(),
            counts_descending(count_views(r@)),
        decreases all.len() - i,
    {
        let c = LanguageCount { language: counts[i].language.clone(), count: counts[i].count };
        let ghost cv = (c.language@, c.count as nat);
        assert(cv == all[i as int]);
        let ghost old_v = count_views(r@);
        let mut p: usize = 0;
        while p < r.len() && r[p].count >= c.count
            invariant
                p <= r@.len(),
                old_v == count_views(r@),
                forall|k: int| 0 <= k < p ==> old_v[k].1 >= c.count,
            decreases r@.len() - p,
        {
            p = p + 1;
        }
        r.insert(p, c);
        let ghost new_v = count_views(r@);
        assert(new_v =~= old_v.insert(p as int, cv));
        assert(all.subrange(0, i + 1) =~= all.subrange(0, i as int).push(cv));
        proof {
            vstd::seq_lib::to_multiset_insert(old_v, p as int, cv);
            all.subrange(0, i as int).to_multiset_ensures();
        }
        assert forall|a: int, b: int| 0 <= a < b < new_v.len() implies new_v[a].1 >= new_v[b].1 by {
            let pi = p as int;
            if a < pi && b == pi {
            } else if a < pi && b > pi {
                assert(new_v[b] == old_v[b - 1]);
                assert(old_v[a].1 >= old_v[b - 1].1);
            } else if a == pi && b > pi {
                assert(new_v[b] == old_v[b - 1]);
                assert(old_v[pi].1 < cv.1);
                if b - 1 > pi {
                    assert(old_v[pi].1 >= old_v[b - 1].1);
                }
            } else if a > pi {
                assert(new_v[a] == old_v[a - 1]);
                assert(new_v[b] == old_v[b - 1]);
            } else {
                assert(new_v[a] == old_v[a]);
                assert(new_v[b] == old_v[b]);
            }
        }
        i = i + 1;
    }
    assert(all.subrange(0, all.len() as int) =~= all);
    r
}

/// Summary statistics of a graph.
pub struct GraphStats {
    pub total_files: usize,
    pub total_lines: usize,
    pub total_deps: usize,
    pub total_unresolved_imports: usize,
    pub total_external_imports: usize,
    pub by_language: Vec<LanguageCount>,
}

fn push_count(v: &mut Vec<LanguageCount>, l: Language, count: usize)
    ensures
        count_views(final(v)@) == count_views(old(v)@) + (if count > 0 {
            seq![(language_label(l), count as nat)]
        } else {
            Seq::empty()
        }),
{
    let ghost before = count_views(v@);
    if count > 0 {
        let label = l.label();
        v.push(LanguageCount { language: label.to_owned(), count });
        assert(count_views(v@) =~= before + seq![(language_label(l), count as nat)]);
    } else {
        assert(count_views(v@) =~= before + Seq::empty());
    }
}

/// The full codebase graph.
pub struct CodeGraph {
    /// Metadata used to decide whether the graph still matches the source tree.
    pub metadata: Option<IndexMetadata>,
    /// The nodes, in increasing order of path, one per path.
    pub nodes: Vec<FileNode>,
    /// Reverse dependency index: file -> files that depend on it; after
    /// `build_rdeps`, one entry per target, in increasing order of target, none
    /// empty.
    pub rdeps: Vec<RdepsEntry>,
}

impl CodeGraph {
    /// The nodes, in increasing order of path.
    pub open spec fn node_views(&self) -> Seq<FileNodeModel> {
        self.nodes@.map_values(|n: FileNode| n@)
    }

    /// The paths of the nodes, in increasing order.
    pub open spec fn paths(&self) -> Seq<Seq<char>> {
        node_paths(self.node_views())
    }

    /// The reverse-dependency index as recorded: target -> dependents.
    pub open spec fn rdeps_view(&self, k: Seq<char>) -> Seq<Seq<char>> {
        lookup_rdeps(self.rdeps@, k)
    }

    /// The graph is well formed: paths sorted and unique, one index entry per
    /// target, each entry's dependents sorted and unique.
    pub open spec fn wf(&self) -> bool {
        &&& strictly_sorted(self.paths())
        &&& rdeps_wf(self.rdeps@)
    }

    /// The reverse-dependency index agrees with the nodes' dependencies.
    pub open spec fn rdeps_current(&self) -> bool {
        forall|k: Seq<char>| #[trigger] lookup_rdeps(self.rdeps@, k).to_set() == dependents_of(self.node_views(), k)
    }

    /// An empty graph.
    pub fn new() -> (g: CodeGraph)
        ensures
            g.wf(),
            g.node_views() == Seq::<FileNodeModel>::empty(),
            g.rdeps@ == Seq::<RdepsEntry>::empty(),
            g.metadata is None,
    {
        let g = CodeGraph { metadata: None, nodes: Vec::new(), rdeps: Vec::new() };
        assert(g.paths() =~= Seq::<Seq<char>>::empty());
        assert(rdeps_targets(g.rdeps@) =~= Seq::<Seq<char>>::empty());
        assert(g.node_views() =~= Seq::<FileNodeModel>::empty());
        g
    }

    /// The node of the file at `path`, if the graph has one.
    pub fn get(&self, path: &str) -> (r: Option<&FileNode>)
        ensures
            match r {
                Some(n) => lookup_node(self.node_views(), path@) == Some(n@),
                None => lookup_node(self.node_views(), path@) is None,
            },
    {
        let ghost ns = self.node_views();
        let mut i: usize = 0;
        assert(ns.skip(0) =~= ns);
        while i < self.nodes.len()
            invariant
                ns == self.node_views(),
                i <= ns.len(),
                lookup_node(ns, path@) == lookup_node(ns.skip(i as int), path@),
            decreases ns.len() - i,
        {
            let ghost rest = ns.skip(i as int);
            assert(rest.drop_first() =~= ns.skip(i + 1));
            assert(rest[0] == self.nodes@[i as int]@);
            if str_eq(self.nodes[i].path.as_str(), path) {
                return Some(&self.nodes[i]);
            }
            i = i + 1;
        }
        None
    }

    /// The files that depend directly on `path`, as the index records them.
    pub fn rdeps_of<'a>(&'a self, path: &str) -> (r: Vec<&'a str>)
        ensures
            strs_view(r@) == self.rdeps_view(path@),
    {
        let mut i: usize = 0;
        assert(self.rdeps@.skip(0) =~= self.rdeps@);
        while i < self.rdeps.len()
            invariant
                i <= self.rdeps@.len(),
                lookup_rdeps(self.rdeps@, path@) == lookup_rdeps(self.rdeps@.skip(i as int), path@),
            decreases self.rdeps@.len() - i,
        {
            let ghost rest = self.rdeps@.skip(i as int);
            assert(rest.drop_first() =~= self.rdeps@.skip(i + 1));
            if str_eq(self.rdeps[i].target.as_str(), path) {
                let deps = &self.rdeps[i].dependents;
                let mut r: Vec<&'a str> = Vec::new();
                let mut j: usize = 0;
                while j < deps.len()
                    invariant
                        j <= deps@.len(),
                        strs_view(r@) == str_views(deps@).subrange(0, j as int),
                    decreases deps@.len() - j,
                {
                    let ghost before = strs_view(r@);
                    r.push(deps[j].as_str());
                    assert(strs_view(r@) =~= before.push(deps@[j as int]@));
                    j = j + 1;
                    assert(strs_view(r@) =~= str_views(deps@).subrange(0, j as int));
                }
                assert(str_views(deps@).subrange(0, deps@.len() as int) =~= str_views(deps@));
                return r;
            }
            i = i + 1;
        }
        let r: Vec<&'a str> = Vec::new();
        assert(strs_view(r@) =~= Seq::<Seq<char>>::empty());
        r
    }

    /// The files that depend directly on `path`, as owned strings.
    fn rdeps_owned(&self, path: &str) -> (r: Vec<String>)
        ensures
            str_views(r@) == self.rdeps_view(path@),
    {
        let mut i: usize = 0;
        assert(self.rdeps@.skip(0) =~= self.rdeps@);
        while i < self.rdeps.len()
            invariant
                i <= self.rdeps@.len(),
                lookup_rdeps(self.rdeps@, path@) == lookup_rdeps(self.rdeps@.skip(i as int), path@),
            decreases self.rdeps@.len() - i,
        {
            let ghost rest = self.rdeps@.skip(i as int);
            assert(rest.drop_first() =~= self.rdeps@.skip(i + 1));
            if str_eq(self.rdeps[i].target.as_str(), path) {
                return clone_strings(&self.rdeps[i].dependents);
            }
            i = i + 1;
        }
        Vec::new()
    }

    /// Rebuilds the reverse-dependency index from the nodes' dependencies.
    pub fn build_rdeps(&mut self)
        requires
            strictly_sorted(old(self).paths()),
        ensures
            final(self).wf(),
            final(self).rdeps_current(),
            rdeps_canonical(final(self).rdeps@),
            final(self).nodes@ == old(self).nodes@,
            final(self).metadata == old(self).metadata,
            rdeps_wf(old(self).rdeps@) && rdeps_canonical(old(self).rdeps@) && old(self).rdeps_current()
                ==> rdeps_model(final(self).rdeps@) == rdeps_model(old(self).rdeps@),
    {
        let ghost nv = self.node_views();
        let ghost old_rdeps = self.rdeps@;
        let mut entries: Vec<RdepsEntry> = Vec::new();
        assert(rdeps_targets(entries@) =~= Seq::<Seq<char>>::empty());
        let mut i: usize = 0;
        while i < self.nodes.len()
            invariant
                i <= self.nodes@.len(),
                nv == self.node_views(),
                rdeps_wf(entries@),
                rdeps_canonical(entries@),
                forall|k: Seq<char>| #[trigger] lookup_rdeps(entries@, k).to_set() == dependents_upto(nv, i as int, k),
            decreases self.nodes@.len() - i,
        {
            let node = &self.nodes[i];
            let ghost nd = nv[i as int];
            assert(nd == node@);
            let mut j: usize = 0;
            while j < node.deps.len()
                invariant
                    i < self.nodes@.len(),
                    nv == self.node_views(),
                    nd == nv[i as int],
                    node@ == nd,
                    j <= nd.deps.len(),
                    rdeps_wf(entries@),
                    rdeps_canonical(entries@),
                    forall|k: Seq<char>| #[trigger] lookup_rdeps(entries@, k).to_set() == (if nd.deps.subrange(0, j as int).contains(k) {
                        dependents_upto(nv, i as int, k).insert(nd.path)
                    } else {
                        dependents_upto(nv, i as int, k)
                    }),
                decreases nd.deps.len() - j,
            {
                let ghost before = entries@;
                add_dependent(&mut entries, &node.deps[j], &node.path);
                assert forall|k: Seq<char>| #[trigger] lookup_rdeps(entries@, k).to_set() == (if nd.deps.subrange(0, j + 1).contains(k) {
                    dependents_upto(nv, i as int, k).insert(nd.path)
                } else {
                    dependents_upto(nv, i as int, k)
                }) by {
                    assert(lookup_rdeps(entries@, k).to_set() == (if k == nd.deps[j as int] {
                        lookup_rdeps(before, k).to_set().insert(nd.path)
                    } else {
                        lookup_rdeps(before, k).to_set()
                    }));
                    assert(lookup_rdeps(before, k).to_set() == (if nd.deps.subrange(0, j as int).contains(k) {
                        dependents_upto(nv, i as int, k).insert(nd.path)
                    } else {
                        dependents_upto(nv, i as int, k)
                    }));
                    if nd.deps.subrange(0, j + 1).contains(k) {
                        let b = choose|b: int| 0 <= b < j + 1 && #[trigger] nd.deps.subrange(0, j + 1)[b] == k;
                        if b < j {
                            assert(nd.deps.subrange(0, j as int)[b] == k);
                        }
                    } else {
                        assert(nd.deps.subrange(0, j + 1)[j as int] == nd.deps[j as int]);
                        if nd.deps.subrange(0, j as int).contains(k) {
                            let b = choose|b: int| 0 <= b < j && #[trigger] nd.deps.subrange(0, j as int)[b] == k;
                            assert(nd.deps.subrange(0, j + 1)[b] == k);
                        }
                    }
                }
                j = j + 1;
            }
            assert(nd.deps.subrange(0, nd.deps.len() as int) =~= nd.deps);
            assert forall|k: Seq<char>| #[trigger] lookup_rdeps(entries@, k).to_set() == dependents_upto(nv, i + 1, k) by {
                assert(lookup_rdeps(entries@, k).to_set() == (if nd.deps.contains(k) {
                    dependents_upto(nv, i as int, k).insert(nd.path)
                } else {
                    dependents_upto(nv, i as int, k)
                }));
                if nd.deps.contains(k) {
                    assert(dependents_upto(nv, i + 1, k) =~= dependents_upto(nv, i as int, k).insert(nd.path));
                } else {
                    assert(dependents_upto(nv, i + 1, k) =~= dependents_upto(nv, i as int, k));
                }
            }
            i = i + 1;
        }
        self.rdeps = entries;
        assert forall|k: Seq<char>| #[trigger] lookup_rdeps(self.rdeps@, k).to_set() == dependents_of(self.node_views(), k) by {
            assert(dependents_upto(nv, nv.len() as int, k) =~= dependents_of(nv, k));
        }
        proof {
            if rdeps_wf(old_rdeps) && rdeps_canonical(old_rdeps) && forall|k: Seq<char>|
                #[trigger] lookup_rdeps(old_rdeps, k).to_set() == dependents_of(nv, k) {
                lemma_rdeps_canonical_unique(self.rdeps@, old_rdeps);
            }
        }
    }

    /// The transitive blast radius of `path`: every file that reaches it
    /// through at most `max_depth` dependency edges, found breadth first,
    /// ordered by depth and then by path. Each entry's `via` is the first file
    /// of the previous level, in the order the search found that level, among
    /// whose dependents the entry is.
    #[verifier::spinoff_prover]
    pub fn blast_radius(&self, path: &str, max_depth: usize) -> (r: Vec<BlastEntry>)
        ensures
            blast_sorted(r@),
            forall|i: int| 0 <= i < r@.len() ==> blast_entry_valid(self.rdeps@, path@, max_depth as nat, #[trigger] r@[i]),
            forall|q: Seq<char>| q != path@ && #[trigger] reach_within(self.rdeps@, path@, q, max_depth as nat) ==> exists|i: int| 0 <= i < r@.len() && r@[i].path@ == q,
            blast_paths(r@).to_set() == blast_set(self.rdeps@, path@, max_depth as nat),
            blast_paths(r@).no_duplicates(),
            r@.len() == blast_set(self.rdeps@, path@, max_depth as nat).len(),
            forall|i: int| #![trigger r@[i]] 0 <= i < r@.len() ==> r@[i].via@ == first_parent(
                self.rdeps@,
                bfs_step(self.rdeps@, path@, (r@[i].depth - 1) as nat).0,
                r@[i].path@,
            ),
    {
        let ghost rd = self.rdeps@;
        let ghost src = path@;
        let src_s: String = path.to_owned();
        let mut visited: Vec<String> = Vec::new();
        visited.push(src_s.clone());
        let mut frontier: Vec<String> = Vec::new();
        frontier.push(src_s);
        let mut result: Vec<BlastEntry> = Vec::new();
        let mut depth: usize = 0;
        proof {
            assert forall|q: Seq<char>| #![trigger str_views(visited@).contains(q)] #![trigger reach_within(rd, src, q, 0)]
                str_views(visited@).contains(q) <==> reach_within(rd, src, q, 0) by {
                if q == src {
                    assert(str_views(visited@)[0] == q);
                }
            }
            assert forall|q: Seq<char>| #![trigger str_views(frontier@).contains(q)] #![trigger at_distance(rd, src, q, 0)]
                str_views(frontier@).contains(q) <==> at_distance(rd, src, q, 0) by {
                if q == src {
                    assert(str_views(frontier@)[0] == q);
                }
            }
            assert(str_views(frontier@) =~= bfs_step(rd, src, 0).0);
            assert(str_views(visited@) =~= bfs_step(rd, src, 0).1);
        }
        while depth < max_depth && frontier.len() > 0
            invariant
                rd == self.rdeps@,
                src == path@,
                depth <= max_depth,
                forall|q: Seq<char>| #![trigger str_views(visited@).contains(q)] #![trigger reach_within(rd, src, q, depth as nat)]
                    str_views(visited@).contains(q) <==> reach_within(rd, src, q, depth as nat),
                forall|q: Seq<char>| #![trigger str_views(frontier@).contains(q)] #![trigger at_distance(rd, src, q, depth as nat)]
                    str_views(frontier@).contains(q) <==> at_distance(rd, src, q, depth as nat),
                blast_sorted(result@),
                forall|i: int| 0 <= i < result@.len() ==> blast_entry_valid(rd, src, max_depth as nat, #[trigger] result@[i]),
                forall|q: Seq<char>| #![trigger reach_within(rd, src, q, depth as nat)] #![trigger blast_has_path(result@, q)] (q != src && reach_within(rd, src, q, depth as nat)) <==> blast_has_path(result@, q),
                str_views(frontier@) == bfs_step(rd, src, depth as nat).0,
                str_views(visited@) == bfs_step(rd, src, depth as nat).1,
                forall|i: int| #![trigger result@[i]] 0 <= i < result@.len() ==> result@[i].via@ == first_parent(
                    rd,
                    bfs_step(rd, src, (result@[i].depth - 1) as nat).0,
                    result@[i].path@,
                ),
            decreases max_depth - depth,
        {
            let ghost d: nat = depth as nat;
            let ghost old_visited = str_views(visited@);
            let ghost fr = str_views(frontier@);
            let mut next: Vec<String> = Vec::new();
            let mut next_via: Vec<String> = Vec::new();
            let mut a: usize = 0;
            assert(str_views(visited@) =~= old_visited + str_views(next@));
            assert(str_views(next@) =~= next_level(rd, fr.take(0), old_visited));
            while a < frontier.len()
                invariant
                    rd == self.rdeps@,
                    fr == str_views(frontier@),
                    a <= fr.len(),
                    next@.len() == next_via@.len(),
                    str_views(visited@) == old_visited + str_views(next@),
                    forall|q: Seq<char>| #![trigger old_visited.contains(q)] #![trigger reach_within(rd, src, q, d)]
                        old_visited.contains(q) <==> reach_within(rd, src, q, d),
                    forall|q: Seq<char>| #![trigger fr.contains(q)] #![trigger at_distance(rd, src, q, d)]
                        fr.contains(q) <==> at_distance(rd, src, q, d),
                    forall|x: int| 0 <= x < next@.len() ==> {
                        &&& !old_visited.contains(#[trigger] next@[x]@)
                        &&& at_distance(rd, src, next_via@[x]@, d)
                        &&& lookup_rdeps(rd, next_via@[x]@).contains(next@[x]@)
                    },
                    forall|x: int, y: int| 0 <= x < y < next@.len() ==> next@[x]@ != next@[y]@,
                    forall|a2: int, q: Seq<char>| 0 <= a2 < a && #[trigger] lookup_rdeps(rd, fr[a2]).contains(q) ==> str_views(visited@).contains(q),
                    fr == bfs_step(rd, src, d).0,
                    old_visited == bfs_step(rd, src, d).1,
                    str_views(next@) == next_level(rd, fr.take(a as int), old_visited),
                    forall|x: int| #![trigger next_via@[x]] 0 <= x < next@.len() ==> next_via@[x]@ == first_parent(rd, fr, next@[x]@),
                decreases fr.len() - a,
            {
                let u = &frontier[a];
                let ghost ea = next_level(rd, fr.take(a as int), old_visited);
                let rs = self.rdeps_owned(u.as_str());
                assert(fr.contains(u@)) by { assert(fr[a as int] == u@); }
                let mut b: usize = 0;
                while b < rs.len()
                    invariant
                        rd == self.rdeps@,
                        fr == str_views(frontier@),
                        a < fr.len(),
                        fr[a as int] == u@,
                        at_distance(rd, src, u@, d),
                        str_views(rs@) == lookup_rdeps(rd, u@),
                        b <= rs@.len(),
                        next@.len() == next_via@.len(),
                        str_views(visited@) == old_visited + str_views(next@),
                        forall|x: int| 0 <= x < next@.len() ==> {
                            &&& !old_visited.contains(#[trigger] next@[x]@)
                            &&& at_distance(rd, src, next_via@[x]@, d)
                            &&& lookup_rdeps(rd, next_via@[x]@).contains(next@[x]@)
                        },
                        forall|x: int, y: int| 0 <= x < y < next@.len() ==> next@[x]@ != next@[y]@,
                        forall|a2: int, q: Seq<char>| 0 <= a2 < a && #[trigger] lookup_rdeps(rd, fr[a2]).contains(q) ==> str_views(visited@).contains(q),
                        forall|b2: int| 0 <= b2 < b ==> str_views(visited@).contains(#[trigger] str_views(rs@)[b2]),
                        fr == bfs_step(rd, src, d).0,
                        old_visited == bfs_step(rd, src, d).1,
                        ea == next_level(rd, fr.take(a as int), old_visited),
                        str_views(next@) == ea + newly_found(str_views(rs@).take(b as int), old_visited + ea),
                        forall|x: int| #![trigger next_via@[x]] 0 <= x < next@.len() ==> next_via@[x]@ == first_parent(rd, fr, next@[x]@),
                    decreases rs@.len() - b,
                {
                    let rr = &rs[b];
                    assert(lookup_rdeps(rd, u@).contains(rr@)) by {
                        assert(str_views(rs@)[b as int] == rr@);
                    }
                    let ghost rsv = str_views(rs@);
                    let ghost seen = old_visited + ea;
                    let ghost nb = newly_found(rsv.take(b as int), seen);
                    proof {
                        assert(rsv.take(b + 1).drop_last() =~= rsv.take(b as int));
                        assert(rsv.take(b + 1).last() == rr@);
                        assert(str_views(visited@) =~= seen + nb);
                    }
                    let ghost via_before = next_via@;
                    let ghost next_before0 = next@;
                    if !contains_string(&visited, rr) {
                        proof {
                            assert forall|j: int| 0 <= j < a implies !lookup_rdeps(rd, #[trigger] fr[j]).contains(rr@) by {
                                if lookup_rdeps(rd, fr[j]).contains(rr@) {
                                    assert(str_views(visited@).contains(rr@));
                                }
                            }
                            lemma_first_parent_at(rd, fr, rr@, a as int);
                        }
                        let ghost vis_before = str_views(visited@);
                        let ghost next_before = str_views(next@);
                        visited.push(rr.clone());
                        next.push(rr.clone());
                        next_via.push(u.clone());
                        assert(str_views(next@) =~= next_before.push(rr@));
                        assert(str_views(visited@) =~= vis_before.push(rr@));
                        assert(str_views(visited@) =~= old_visited + str_views(next@));
                        assert(!old_visited.contains(rr@)) by {
                            if old_visited.contains(rr@) {
                                let k = choose|k: int| 0 <= k < old_visited.len() && old_visited[k] == rr@;
                                assert(vis_before[k] == rr@);
                            }
                        }
                        assert forall|x: int, y: int| 0 <= x < y < next@.len() implies next@[x]@ != next@[y]@ by {
                            if y == next@.len() - 1 {
                                assert(vis_before[old_visited.len() + x] == next@[x]@);
                            }
                        }
                        assert forall|a2: int, q: Seq<char>| 0 <= a2 < a && #[trigger] lookup_rdeps(rd, fr[a2]).contains(q) implies str_views(visited@).contains(q) by {
                            let k = choose|k: int| 0 <= k < vis_before.len() && vis_before[k] == q;
                            assert(str_views(visited@)[k] == q);
                        }
                        assert forall|b2: int| 0 <= b2 <= b implies str_views(visited@).contains(#[trigger] str_views(rs@)[b2]) by {
                            if b2 < b {
                                let q = str_views(rs@)[b2];
                                let k = choose|k: int| 0 <= k < vis_before.len() && vis_before[k] == q;
                                assert(str_views(visited@)[k] == q);
                            } else {
                                assert(str_views(visited@)[vis_before.len() as int] == rr@);
                            }
                        }
                    }
                    proof {
                        assert(str_views(next@) =~= ea + newly_found(rsv.take(b + 1), seen));
                        assert forall|x: int| #![trigger next_via@[x]] 0 <= x < next@.len() implies next_via@[x]@ == first_parent(rd, fr, next@[x]@) by {
                            if x < next_before0.len() {
                                assert(next_via@[x] == via_before[x]);
                                assert(next@[x] == next_before0[x]);
                            }
                        }
                    }
                    b = b + 1;
                }
                assert forall|a2: int, q: Seq<char>| 0 <= a2 < a + 1 && #[trigger] lookup_rdeps(rd, fr[a2]).contains(q) implies str_views(visited@).contains(q) by {
                    if a2 == a {
                        let k = choose|k: int| 0 <= k < str_views(rs@).len() && str_views(rs@)[k] == q;
                        assert(str_views(visited@).contains(str_views(rs@)[k]));
                    }
                }
                proof {
                    assert(str_views(rs@).take(rs@.len() as int) =~= str_views(rs@));
                    assert(fr.take(a + 1).drop_last() =~= fr.take(a as int));
                    assert(fr.take(a + 1).last() == fr[a as int]);
                    assert(str_views(next@) =~= next_level(rd, fr.take(a + 1), old_visited));
                }
                a = a + 1;
            }
            let ghost nx = str_views(next@);
            proof {
                assert(fr.take(fr.len() as int) =~= fr);
                assert(nx == next_level(rd, fr, old_visited));
                assert(bfs_step(rd, src, d + 1) == (nx, old_visited + nx));
                assert(str_views(visited@) == bfs_step(rd, src, d + 1).1);
            }
            // The files found at this level are exactly those first reached at d + 1.
            proof {
                assert forall|q: Seq<char>| #![trigger nx.contains(q)] #![trigger at_distance(rd, src, q, d + 1)]
                    nx.contains(q) <==> at_distance(rd, src, q, d + 1) by {
                    if nx.contains(q) {
                        let x = choose|x: int| 0 <= x < nx.len() && nx[x] == q;
                        assert(next@[x]@ == q);
                        let v = next_via@[x]@;
                        assert(reach_within(rd, src, v, d));
                        assert(reach_within(rd, src, q, d + 1));
                    }
                    if at_distance(rd, src, q, d + 1) {
                        lemma_next_level_source(rd, src, q, d);
                        let v = choose|v: Seq<char>| at_distance(rd, src, v, d) && #[trigger] lookup_rdeps(rd, v).contains(q);
                        assert(fr.contains(v));
                        let a2 = choose|a2: int| 0 <= a2 < fr.len() && fr[a2] == v;
                        assert(lookup_rdeps(rd, fr[a2]).contains(q));
                        assert(str_views(visited@).contains(q));
                        let k = choose|k: int| 0 <= k < str_views(visited@).len() && str_views(visited@)[k] == q;
                        if k < old_visited.len() {
                            assert(old_visited[k] == q);
                        } else {
                            assert(nx[k - old_visited.len()] == q);
                        }
                    }
                }
                assert forall|q: Seq<char>| #![trigger str_views(visited@).contains(q)] #![trigger reach_within(rd, src, q, d + 1)]
                    str_views(visited@).contains(q) <==> reach_within(rd, src, q, d + 1) by {
                    if str_views(visited@).contains(q) {
                        let k = choose|k: int| 0 <= k < str_views(visited@).len() && str_views(visited@)[k] == q;
                        if k < old_visited.len() {
                            assert(old_visited[k] == q);
                            lemma_reach_monotone(rd, src, q, d, d + 1);
                        } else {
                            assert(nx[k - old_visited.len()] == q);
                            assert(nx.contains(q));
                        }
                    }
                    if reach_within(rd, src, q, d + 1) {
                        if reach_within(rd, src, q, d) {
                            assert(old_visited.contains(q));
                            let k = choose|k: int| 0 <= k < old_visited.len() && old_visited[k] == q;
                            assert(str_views(visited@)[k] == q);
                        } else {
                            assert(at_distance(rd, src, q, d + 1));
                            assert(nx.contains(q));
                            let k = choose|k: int| 0 <= k < nx.len() && nx[k] == q;
                            assert(str_views(visited@)[old_visited.len() + k] == q);
                        }
                    }
                }
            }
            depth = depth + 1;
            let ghost result_before = result@;
            let mut x: usize = 0;
            while x < next.len()
                invariant
                    rd == self.rdeps@,
                    src == path@,
                    depth == d + 1,
                    depth <= max_depth,
                    nx == str_views(next@),
                    next@.len() == next_via@.len(),
                    x <= next@.len(),
                    forall|q: Seq<char>| #![trigger nx.contains(q)] #![trigger at_distance(rd, src, q, d + 1)]
                        nx.contains(q) <==> at_distance(rd, src, q, d + 1),
                    forall|y: int| 0 <= y < next@.len() ==> {
                        &&& !old_visited.contains(#[trigger] next@[y]@)
                        &&& at_distance(rd, src, next_via@[y]@, d)
                        &&& lookup_rdeps(rd, next_via@[y]@).contains(next@[y]@)
                    },
                    forall|y: int, z: int| 0 <= y < z < next@.len() ==> next@[y]@ != next@[z]@,
                    forall|q: Seq<char>| #![trigger old_visited.contains(q)] #![trigger reach_within(rd, src, q, d)]
                        old_visited.contains(q) <==> reach_within(rd, src, q, d),
                    forall|q: Seq<char>| #![trigger reach_within(rd, src, q, d)] #![trigger blast_has_path(result_before, q)] (q != src && reach_within(rd, src, q, d)) <==> blast_has_path(result_before, q),
                    blast_sorted(result@),
                    forall|i: int| 0 <= i < result@.len() ==> blast_entry_valid(rd, src, max_depth as nat, #[trigger] result@[i]),
                    forall|q: Seq<char>| #[trigger] blast_has_path(result@, q) <==> (blast_has_path(result_before, q) || prefix_has(next@, x as int, q)),
                    fr == bfs_step(rd, src, d).0,
                    nx == bfs_step(rd, src, (d + 1) as nat).0,
                    str_views(visited@) == bfs_step(rd, src, (d + 1) as nat).1,
                    forall|y: int| #![trigger next_via@[y]] 0 <= y < next@.len() ==> next_via@[y]@ == first_parent(rd, fr, next@[y]@),
                    forall|i: int| #![trigger result@[i]] 0 <= i < result@.len() ==> result@[i].via@ == first_parent(
                        rd,
                        bfs_step(rd, src, (result@[i].depth - 1) as nat).0,
                        result@[i].path@,
                    ),
                decreases next@.len() - x,
            {
                let fan = self.rdeps_of(next[x].as_str()).len();
                let e = BlastEntry { path: next[x].clone(), depth, via: next_via[x].clone(), fan_out: fan };
                assert(nx.contains(e.path@)) by { assert(nx[x as int] == e.path@); }
                assert(at_distance(rd, src, e.path@, d + 1));
                assert forall|i: int| 0 <= i < result@.len() implies result@[i].path@ != e.path@ by {
                    if result@[i].path@ == e.path@ {
                        assert(blast_has_path(result@, e.path@));
                        assert(e.path@ == next@[x as int]@);
                        if blast_has_path(result_before, e.path@) {
                            assert(reach_within(rd, src, e.path@, d));
                            assert(old_visited.contains(e.path@));
                        } else {
                            assert(prefix_has(next@, x as int, e.path@));
                            let y = choose|y: int| 0 <= y < x && #[trigger] next@[y]@ == e.path@;
                            assert(next@[y]@ != next@[x as int]@);
                        }
                    }
                }
                let ghost rb = result@;
                let pos = insert_blast_entry(&mut result, e);
                proof {
                    assert forall|i: int| 0 <= i < result@.len() implies blast_entry_valid(rd, src, max_depth as nat, #[trigger] result@[i]) by {
                        if i < pos {
                            assert(result@[i] == rb[i]);
                        } else if i > pos {
                            assert(result@[i] == rb[i - 1]);
                        }
                    }
                    assert forall|i: int| #![trigger result@[i]] 0 <= i < result@.len() implies result@[i].via@ == first_parent(
                        rd,
                        bfs_step(rd, src, (result@[i].depth - 1) as nat).0,
                        result@[i].path@,
                    ) by {
                        if i < pos {
                            assert(result@[i] == rb[i]);
                        } else if i > pos {
                            assert(result@[i] == rb[i - 1]);
                        } else {
                            assert(next_via@[x as int]@ == first_parent(rd, fr, next@[x as int]@));
                        }
                    }
                    assert forall|q: Seq<char>| #[trigger] blast_has_path(result@, q) <==> (blast_has_path(result_before, q) || prefix_has(next@, x + 1, q)) by {
                        assert(blast_has_path(rb, q) <==> (blast_has_path(result_before, q) || prefix_has(next@, x as int, q)));
                        if blast_has_path(result@, q) {
                            let i = choose|i: int| 0 <= i < result@.len() && #[trigger] result@[i].path@ == q;
                            if i < pos {
                                assert(rb[i].path@ == q);
                                assert(blast_has_path(rb, q));
                            } else if i > pos {
                                assert(rb[i - 1].path@ == q);
                                assert(blast_has_path(rb, q));
                            } else {
                                assert(next@[x as int]@ == q);
                            }
                            if prefix_has(next@, x as int, q) {
                                let y = choose|y: int| 0 <= y < x && #[trigger] next@[y]@ == q;
                                assert(prefix_has(next@, x + 1, q));
                            }
                            if i == pos {
                                assert(prefix_has(next@, x + 1, q));
                            }
                        }
                        let has_before = blast_has_path(rb, q);
                        if prefix_has(next@, x + 1, q) {
                            let y = choose|y: int| 0 <= y < x + 1 && #[trigger] next@[y]@ == q;
                            if y < x {
                                assert(prefix_has(next@, x as int, q));
                            }
                        }
                        if has_before || (prefix_has(next@, x + 1, q) && !prefix_has(next@, x as int, q)) || blast_has_path(result_before, q) || prefix_has(next@, x as int, q) {
                            if blast_has_path(rb, q) {
                                let i = choose|i: int| 0 <= i < rb.len() && #[trigger] rb[i].path@ == q;
                                if i < pos {
                                    assert(result@[i].path@ == q);
                                } else {
                                    assert(result@[i + 1].path@ == q);
                                }
                            } else {
                                let y = choose|y: int| 0 <= y < x + 1 && #[trigger] next@[y]@ == q;
                                assert(y == x);
                                assert(result@[pos as int].path@ == q);
                            }
                        }
                    }
                }
                x = x + 1;
            }
            proof {
                assert forall|q: Seq<char>| #![trigger reach_within(rd, src, q, depth as nat)] #![trigger blast_has_path(result@, q)] (q != src && reach_within(rd, src, q, depth as nat)) <==> blast_has_path(result@, q) by {
                    if q != src && reach_within(rd, src, q, d + 1) {
                        if reach_within(rd, src, q, d) {
                            let i = choose|i: int| 0 <= i < result_before.len() && #[trigger] result_before[i].path@ == q;
                            assert(result_before[i].path@ == q);
                        } else {
                            assert(at_distance(rd, src, q, d + 1));
                            assert(nx.contains(q));
                            let y = choose|y: int| 0 <= y < nx.len() && nx[y] == q;
                            assert(next@[y]@ == q);
                        }
                    }
                    if blast_has_path(result@, q) {
                        if blast_has_path(result_before, q) {
                            lemma_reach_monotone(rd, src, q, d, d + 1);
                        } else {
                            let y = choose|y: int| 0 <= y < next@.len() && #[trigger] next@[y]@ == q;
                            assert(nx[y] == q);
                            assert(at_distance(rd, src, q, d + 1));
                        }
                    }
                }
            }
            frontier = next;
        }
        proof {
            assert forall|q: Seq<char>| q != src && #[trigger] reach_within(rd, src, q, max_depth as nat) implies exists|i: int| 0 <= i < result@.len() && result@[i].path@ == q by {
                if depth < max_depth {
                    assert forall|x: Seq<char>| !#[trigger] at_distance(rd, src, x, depth as nat) by {
                        if at_distance(rd, src, x, depth as nat) {
                            assert(str_views(frontier@).contains(x));
                        }
                    }
                    lemma_reach_stable(rd, src, depth as nat, max_depth as nat, q);
                }
                assert(reach_within(rd, src, q, depth as nat));
            }
            lemma_blast_paths_unique(rd, src, max_depth as nat, result@);
            let ps = blast_paths(result@);
            assert forall|q: Seq<char>| ps.to_set().contains(q) <==> blast_set(rd, src, max_depth as nat).contains(q) by {
                if ps.to_set().contains(q) {
                    let i = choose|i: int| 0 <= i < ps.len() && ps[i] == q;
                    assert(blast_entry_valid(rd, src, max_depth as nat, result@[i]));
                    lemma_reach_monotone(rd, src, q, result@[i].depth as nat, max_depth as nat);
                    if q == src {
                        assert(reach_within(rd, src, q, 0));
                        if result@[i].depth >= 1 {
                            lemma_reach_monotone(rd, src, q, 0, (result@[i].depth - 1) as nat);
                        }
                    }
                }
                if blast_set(rd, src, max_depth as nat).contains(q) {
                    assert(reach_within(rd, src, q, max_depth as nat));
                    let i = choose|i: int| 0 <= i < result@.len() && result@[i].path@ == q;
                    assert(ps[i] == q);
                }
            }
            assert(ps.to_set() =~= blast_set(rd, src, max_depth as nat));
        }
        result
    }

    /// The four totals of the statistics fit in a `usize`.
    pub open spec fn totals_fit(&self) -> bool {
        &&& total(self.node_views(), NodeMeasure::Lines) <= usize::MAX
        &&& total(self.node_views(), NodeMeasure::Deps) <= usize::MAX
        &&& total(self.node_views(), NodeMeasure::UnresolvedImports) <= usize::MAX
        &&& total(self.node_views(), NodeMeasure::ExternalImports) <= usize::MAX
    }

    fn total_fits(&self, m: NodeMeasure) -> (r: bool)
        ensures
            r == (total(self.node_views(), m) <= usize::MAX),
    {
        let ghost ns = self.node_views();
        let mut acc: usize = 0;
        let mut i: usize = 0;
        while i < self.nodes.len()
            invariant
                ns == self.node_views(),
                i <= ns.len(),
                acc == total(ns.subrange(0, i as int), m),
            decreases ns.len() - i,
        {
            let n = &self.nodes[i];
            let ghost post = ns.subrange(0, i + 1);
            assert(post.drop_last() =~= ns.subrange(0, i as int));
            assert(post.last() == n@);
            let x: usize = match m {
                NodeMeasure::Lines => n.lines,
                NodeMeasure::Deps => n.deps.len(),
                NodeMeasure::UnresolvedImports => n.unresolved_imports.len(),
                NodeMeasure::ExternalImports => n.external_imports.len(),
            };
            match acc.checked_add(x) {
                Some(v) => {
                    acc = v;
                },
                None => {
                    proof {
                        lemma_total_prefix(ns, m, i + 1);
                    }
                    return false;
                },
            }
            i = i + 1;
        }
        assert(ns.subrange(0, ns.len() as int) =~= ns);
        true
    }

    /// Whether the totals of the statistics fit in a `usize`, which `stats`
    /// needs.
    pub fn totals_in_range(&self) -> (r: bool)
        ensures
            r == self.totals_fit(),
    {
        self.total_fits(NodeMeasure::Lines) && self.total_fits(NodeMeasure::Deps)
            && self.total_fits(NodeMeasure::UnresolvedImports) && self.total_fits(NodeMeasure::ExternalImports)
    }

    /// Summary statistics.
    pub fn stats(&self) -> (st: GraphStats)
        requires
            self.totals_fit(),
        ensures
            st.total_files == self.node_views().len(),
            st.total_lines == total(self.node_views(), NodeMeasure::Lines),
            st.total_deps == total(self.node_views(), NodeMeasure::Deps),
            st.total_unresolved_imports == total(self.node_views(), NodeMeasure::UnresolvedImports),
            st.total_external_imports == total(self.node_views(), NodeMeasure::ExternalImports),
            count_views(st.by_language@) == language_counts(self.node_views()),
    {
        let ghost ns = self.node_views();
        let mut lines: usize = 0;
        let mut deps: usize = 0;
        let mut unresolved: usize = 0;
        let mut external: usize = 0;
        let mut rust: usize = 0;
        let mut ts: usize = 0;
        let mut js: usize = 0;
        let mut py: usize = 0;
        let mut go: usize = 0;
        let mut unknown: usize = 0;
        let mut i: usize = 0;
        while i < self.nodes.len()
            invariant
                ns == self.node_views(),
                i <= ns.len(),
                total(ns, NodeMeasure::Lines) <= usize::MAX,
                total(ns, NodeMeasure::Deps) <= usize::MAX,
                total(ns, NodeMeasure::UnresolvedImports) <= usize::MAX,
                total(ns, NodeMeasure::ExternalImports) <= usize::MAX,
                lines == total(ns.subrange(0, i as int), NodeMeasure::Lines),
                deps == total(ns.subrange(0, i as int), NodeMeasure::Deps),
                unresolved == total(ns.subrange(0, i as int), NodeMeasure::UnresolvedImports),
                external == total(ns.subrange(0, i as int), NodeMeasure::ExternalImports),
                rust == count_language(ns.subrange(0, i as int), Language::Rust),
                ts == count_language(ns.subrange(0, i as int), Language::TypeScript),
                js == count_language(ns.subrange(0, i as int), Language::JavaScript),
                py == count_language(ns.subrange(0, i as int), Language::Python),
                go == count_language(ns.subrange(0, i as int), Language::Go),
                unknown == count_language(ns.subrange(0, i as int), Language::Unknown),
            decreases ns.len() - i,
        {
            let n = &self.nodes[i];
            let ghost pre = ns.subrange(0, i as int);
            let ghost post = ns.subrange(0, i + 1);
            assert(post.drop_last() =~= pre);
            assert(post.last() == n@);
            proof {
                lemma_total_prefix(ns, NodeMeasure::Lines, i + 1);
                lemma_total_prefix(ns, NodeMeasure::Deps, i + 1);
                lemma_total_prefix(ns, NodeMeasure::UnresolvedImports, i + 1);
                lemma_total_prefix(ns, NodeMeasure::ExternalImports, i + 1);
                lemma_count_language_bound(post, Language::Rust);
                lemma_count_language_bound(post, Language::TypeScript);
                lemma_count_language_bound(post, Language::JavaScript);
                lemma_count_language_bound(post, Language::Python);
                lemma_count_language_bound(post, Language::Go);
                lemma_count_language_bound(post, Language::Unknown);
            }
            lines = lines + n.lines;
            deps = deps + n.deps.len();
            unresolved = unresolved + n.unresolved_imports.len();
            external = external + n.external_imports.len();
            match n.language {
                Language::Rust => { rust = rust + 1; },
                Language::TypeScript => { ts = ts + 1; },
                Language::JavaScript => { js = js + 1; },
                Language::Python => { py = py + 1; },
                Language::Go => { go = go + 1; },
                Language::Unknown => { unknown = unknown + 1; },
            }
            i = i + 1;
        }
        assert(ns.subrange(0, ns.len() as int) =~= ns);
        let mut by_language: Vec<LanguageCount> = Vec::new();
        assert(count_views(by_language@) =~= Seq::empty());
        push_count(&mut by_language, Language::Rust, rust);
        push_count(&mut by_language, Language::TypeScript, ts);
        push_count(&mut by_language, Language::JavaScript, js);
        push_count(&mut by_language, Language::Python, py);
        push_count(&mut by_language, Language::Go, go);
        push_count(&mut by_language, Language::Unknown, unknown);
        assert(count_views(by_language@) =~= language_counts(ns));
        GraphStats {
            total_files: self.nodes.len(),
            total_lines: lines,
            total_deps: deps,
            total_unresolved_imports: unresolved,
            total_external_imports: external,
            by_language,
        }
    }

    /// Adds a node, replacing the node with the same path if there is one.
    /// The reverse-dependency index is left as it was: `build_rdeps` rebuilds it.
    pub fn add_node(&mut self, node: FileNode)
        requires
            old(self).wf(),
        ensures
            final(self).wf(),
            final(self).node_views() == insert_node(old(self).node_views(), node@),
            final(self).rdeps@ == old(self).rdeps@,
            final(self).metadata == old(self).metadata,
    {
        let ghost ns = self.node_views();
        let mut i: usize = 0;
        while i < self.nodes.len() && str_lt(self.nodes[i].path.as_str(), node.path.as_str())
            invariant
                i <= self.nodes@.len(),
                ns == self.node_views(),
                insert_pos_from(ns, node.path@, 0) == insert_pos_from(ns, node.path@, i as int),
            decreases self.nodes@.len() - i,
        {
            i = i + 1;
        }
        assert(node_paths(ns) =~= self.paths());
        proof {
            lemma_insert_node_sorted(ns, node@);
        }
        let ghost nv = node@;
        if i < self.nodes.len() && str_eq(self.nodes[i].path.as_str(), node.path.as_str()) {
            self.nodes.set(i, node);
        } else {
            self.nodes.insert(i, node);
        }
        assert(self.node_views() =~= insert_node(ns, nv));
        assert(node_paths(insert_node(ns, nv)) =~= self.paths());
    }
}

} // verus!
