//! Properties of the library as a whole: what holds across its operations.
use vstd::prelude::*;
use crate::graph::{
    at_distance, blast_set, dependents_of, lemma_reach_monotone, lookup_rdeps, rdeps_wf,
    language_label, lemma_rdeps_canonical_unique, rdeps_canonical, rdeps_model, BlastEntry, reach_within, CodeGraph,
    FileNodeModel, IndexedFileMeta, Language, RdepsEntry, INDEX_SCHEMA_VERSION,
};
use crate::order::{lemma_lt_asymmetric, lemma_lt_irreflexive, seq_lt, str_views, strictly_sorted};
use crate::resolve::{
    declared_child, dir_of, expand_rust, file_candidate, first_go_match, first_in, go_matches,
    import_segments, js_suffixes, mod_candidate, module_segments, normalize, py_relative,
    python_candidates, resolve_js, resolve_rust_one, resolve_segments_from, src_root, with_suffixes,
    after_last_slash,
};
use crate::text::{contains_seq, occurs_at, replace_char, starts_with};
use crate::scan::{
    resolved_deps_set,
    external_set, meta_views, node_resolved, resolution_deps, resolution_external,
    resolution_unresolved, unresolved_set,
};
use crate::store::{
    changed_set, freshness_valid, lemma_meta_lookup_some, meta_lookup, missing_set, new_set,
    IndexFreshness,
};
use crate::report::{
    hot_before, hot_candidates, hotspot_views, top_hotspots, HotspotEntry, HotspotModel,
    blast_hints_spec, high_risk_spec, max_depth,
    all_symbols, lowercase, matching_exports, symbol_matches,
    action_level_spec, needs_refresh, recommended_spec, status_spec, strict_exit, ActionLevel, AgentGates,
    DoctorStatus,
};

verus! {

proof fn lemma_lookup_rdeps_sorted(entries: Seq<RdepsEntry>, k: Seq<char>)
    requires
        rdeps_wf(entries),
    ensures
        strictly_sorted(lookup_rdeps(entries, k)),
    decreases entries.len(),
{
    if entries.len() > 0 {
        if entries[0].target@ != k {
            let rest = entries.drop_first();
            assert forall|i: int| 0 <= i < rest.len() implies strictly_sorted(
                #[trigger] crate::order::str_views(rest[i].dependents@),
            ) by {
                assert(rest[i] == entries[i + 1]);
            }
            assert(crate::graph::rdeps_targets(rest) =~= crate::graph::rdeps_targets(entries).drop_first());
            lemma_lookup_rdeps_sorted(rest, k);
        } else {
            assert(strictly_sorted(crate::order::str_views(entries[0].dependents@)));
        }
    } else {
        assert(strictly_sorted(Seq::<Seq<char>>::empty()));
    }
}

/// Once the reverse index is rebuilt, the dependents recorded for a file are
/// exactly the files whose dependencies name it, in increasing order, each
/// once.
pub proof fn law_rdeps_are_reverse_deps(g: &CodeGraph, p: Seq<char>)
    requires
        g.wf(),
        g.rdeps_current(),
    ensures
        strictly_sorted(g.rdeps_view(p)),
        forall|q: Seq<char>| #[trigger] g.rdeps_view(p).contains(q) <==> exists|i: int|
            0 <= i < g.node_views().len() && g.node_views()[i].path == q && #[trigger] g.node_views()[i].deps.contains(p),
{
    lemma_lookup_rdeps_sorted(g.rdeps@, p);
    assert(lookup_rdeps(g.rdeps@, p).to_set() == dependents_of(g.node_views(), p));
    assert forall|q: Seq<char>| #[trigger] g.rdeps_view(p).contains(q) <==> exists|i: int|
        0 <= i < g.node_views().len() && g.node_views()[i].path == q && #[trigger] g.node_views()[i].deps.contains(p) by {
        assert(g.rdeps_view(p).contains(q) <==> g.rdeps_view(p).to_set().contains(q));
    }
}

/// The files first reached at depth 1 of a blast radius are exactly the direct
/// dependents of the file, other than the file itself.
pub proof fn law_depth_one_is_direct_dependents(rd: Seq<RdepsEntry>, src: Seq<char>, q: Seq<char>)
    ensures
        at_distance(rd, src, q, 1) <==> (q != src && lookup_rdeps(rd, src).contains(q)),
{
    if q != src && lookup_rdeps(rd, src).contains(q) {
        assert(reach_within(rd, src, src, 0));
        assert(reach_within(rd, src, q, 1));
    }
    if at_distance(rd, src, q, 1) {
        let v = choose|v: Seq<char>| reach_within(rd, src, v, 0) && #[trigger] lookup_rdeps(rd, v).contains(q);
        assert(v == src);
    }
}

/// A deeper blast radius holds everything a shallower one holds, and a blast
/// radius of depth 0 is empty.
pub proof fn law_blast_grows_with_depth(rd: Seq<RdepsEntry>, src: Seq<char>, d1: nat, d2: nat)
    requires
        d1 <= d2,
    ensures
        blast_set(rd, src, d1).subset_of(blast_set(rd, src, d2)),
        blast_set(rd, src, 0) == Set::<Seq<char>>::empty(),
{
    assert forall|q: Seq<char>| #[trigger] blast_set(rd, src, d1).contains(q) implies blast_set(rd, src, d2).contains(q) by {
        lemma_reach_monotone(rd, src, q, d1, d2);
    }
    assert(blast_set(rd, src, 0) =~= Set::<Seq<char>>::empty());
}

/// The doctor stops when nothing is indexed; otherwise a stale map is
/// refreshed before unresolved imports are reviewed; only a fresh map with no
/// unresolved import needs no action.
pub proof fn law_action_precedence(g: AgentGates)
    ensures
        !g.files_indexed ==> action_level_spec(g) == ActionLevel::Stop,
        g.files_indexed && needs_refresh(g) ==> action_level_spec(g) == ActionLevel::Refresh,
        action_level_spec(g) == ActionLevel::Review <==> (g.files_indexed && !needs_refresh(g)
            && !g.unresolved_imports_clear),
        action_level_spec(g) == ActionLevel::NoAction <==> (g.files_indexed && g.index_fresh && g.schema_current
            && g.source_delta_clear && g.unresolved_imports_clear),
{
}

/// `doctor --strict` exits 0 exactly when the doctor is ready, 10 exactly
/// when it advises caution, and 30 exactly when it is blocked.
pub proof fn law_strict_exit_follows_status(a: ActionLevel)
    ensures
        strict_exit(a) == 0 <==> status_spec(a) == DoctorStatus::Ready,
        strict_exit(a) == 10 <==> status_spec(a) == DoctorStatus::Caution,
        strict_exit(a) == 30 <==> status_spec(a) == DoctorStatus::Blocked,
{
}


/// The doctor's recommendations follow its action: some recommendation is
/// required exactly when an action is asked for; a stop or a refresh starts
/// with a required rescan; a review of a fresh map starts with the required
/// inspection of unresolved imports, then offers `atlas deps` on the first
/// file with one (`<file>` when none is known).
pub proof fn law_recommendations_follow_action(g: AgentGates, first: Option<Seq<char>>)
    ensures
        recommended_spec(action_level_spec(g), g, first).len() > 0,
        (exists|i: int| 0 <= i < recommended_spec(action_level_spec(g), g, first).len()
            && #[trigger] recommended_spec(action_level_spec(g), g, first)[i].required)
            <==> action_level_spec(g) != ActionLevel::NoAction,
        action_level_spec(g) == ActionLevel::Stop ==> {
            let c = recommended_spec(action_level_spec(g), g, first)[0];
            &&& c.reason_code == "no_files_indexed"@
            &&& c.required
            &&& c.argv == Some(seq!["atlas"@, "scan"@, "--force"@])
        },
        action_level_spec(g) == ActionLevel::Refresh ==> {
            let c = recommended_spec(action_level_spec(g), g, first)[0];
            &&& c.reason_code == "index_not_fresh"@
            &&& c.required
            &&& c.argv == Some(seq!["atlas"@, "scan"@, "--force"@])
        },
        action_level_spec(g) == ActionLevel::Review ==> {
            let cs = recommended_spec(action_level_spec(g), g, first);
            let file = match first {
                Some(f) => f,
                None => "<file>"@,
            };
            &&& cs.len() == 2
            &&& cs[0].reason_code == "unresolved_local_imports"@
            &&& cs[0].required
            &&& cs[1].argv == Some(seq!["atlas"@, "deps"@, file])
        },
{
    let a = action_level_spec(g);
    let cs = recommended_spec(a, g, first);
    if a != ActionLevel::NoAction {
        assert(cs[0].required);
    } else {
        assert forall|i: int| 0 <= i < cs.len() implies !#[trigger] cs[i].required by {
            assert(cs.len() == 2);
        }
    }
}


/// No two records name the same path.
pub open spec fn meta_paths_unique(ms: Seq<IndexedFileMeta>) -> bool {
    forall|i: int, j: int| 0 <= i < j < ms.len() ==> ms[i].path@ != ms[j].path@
}

proof fn lemma_meta_lookup_found(ms: Seq<IndexedFileMeta>, p: Seq<char>)
    ensures
        meta_lookup(ms, p) matches Some(v) ==> meta_views(ms).contains((p, v.0, v.1)),
    decreases ms.len(),
{
    if ms.len() > 0 {
        let last = ms.len() - 1;
        assert(meta_views(ms)[last] == (ms[last].path@, ms[last].modified_unix_ms, ms[last].byte_len));
        if ms.last().path@ != p {
            lemma_meta_lookup_found(ms.drop_last(), p);
            if let Some(v) = meta_lookup(ms, p) {
                let i = choose|i: int| 0 <= i < meta_views(ms.drop_last()).len() && meta_views(ms.drop_last())[i] == (p, v.0, v.1);
                assert(meta_views(ms)[i] == meta_views(ms.drop_last())[i]);
            }
        }
    }
}

proof fn lemma_meta_lookup_unique(ms: Seq<IndexedFileMeta>, p: Seq<char>, m: u64, b: u64)
    requires
        meta_paths_unique(ms),
        meta_views(ms).contains((p, m, b)),
    ensures
        meta_lookup(ms, p) == Some((m, b)),
    decreases ms.len(),
{
    let i = choose|i: int| 0 <= i < meta_views(ms).len() && meta_views(ms)[i] == (p, m, b);
    assert(meta_views(ms)[i] == (ms[i].path@, ms[i].modified_unix_ms, ms[i].byte_len));
    let last = ms.len() - 1;
    if i < last {
        assert(ms[i].path@ != ms[last].path@);
        let rest = ms.drop_last();
        assert(meta_views(rest)[i] == meta_views(ms)[i]);
        lemma_meta_lookup_unique(rest, p, m, b);
    }
}

proof fn lemma_empty_to_set(s: Seq<Seq<char>>)
    requires
        s.to_set() == Set::<Seq<char>>::empty(),
    ensures
        s.len() == 0,
{
    if s.len() > 0 {
        assert(s.to_set().contains(s[0]));
    }
}

/// A graph compared with the very files it was built from is fresh: when the
/// records on disk now are those it indexed (the same records, in any order,
/// each path once), nothing changed, went missing or is new, and the index is
/// not stale.
pub proof fn law_fresh_right_after_scan(
    graph: &CodeGraph,
    current: Seq<IndexedFileMeta>,
    f: &IndexFreshness,
)
    requires
        freshness_valid(graph, current, f),
        graph.metadata matches Some(m) && m.schema_version == INDEX_SCHEMA_VERSION && meta_paths_unique(
            m.indexed_files@,
        ) && meta_views(m.indexed_files@).to_multiset() == meta_views(current).to_multiset(),
    ensures
        f.has_metadata,
        !f.schema_mismatch,
        !f.stale,
        f.changed_files@.len() == 0,
        f.missing_files@.len() == 0,
        f.new_files@.len() == 0,
{
    let m = graph.metadata->0;
    let old = m.indexed_files@;
    meta_views(old).to_multiset_ensures();
    meta_views(current).to_multiset_ensures();
    assert forall|p: Seq<char>| meta_lookup(old, p) == meta_lookup(current, p) by {
        lemma_meta_lookup_found(old, p);
        lemma_meta_lookup_found(current, p);
        lemma_meta_lookup_some(current, p);
        if let Some(w) = meta_lookup(current, p) {
            assert(meta_views(current).to_multiset().count((p, w.0, w.1)) > 0);
            lemma_meta_lookup_unique(old, p, w.0, w.1);
        } else if let Some(v) = meta_lookup(old, p) {
            assert(meta_views(old).to_multiset().count((p, v.0, v.1)) > 0);
            assert(meta_views(current).contains((p, v.0, v.1)));
            let i = choose|i: int| 0 <= i < meta_views(current).len() && meta_views(current)[i] == (p, v.0, v.1);
            assert(meta_views(current)[i] == (current[i].path@, current[i].modified_unix_ms, current[i].byte_len));
            assert(current[i].path@ == p);
        }
    }
    assert(changed_set(old, current) =~= Set::<Seq<char>>::empty());
    assert(missing_set(old, current) =~= Set::<Seq<char>>::empty());
    assert(new_set(old, current) =~= Set::<Seq<char>>::empty());
    lemma_empty_to_set(str_views(f.changed_files@));
    lemma_empty_to_set(str_views(f.missing_files@));
    lemma_empty_to_set(str_views(f.new_files@));
}

/// An index is stale exactly when it has no metadata, was written under
/// another schema, or some file changed, went missing or is new; and no file
/// is reported in two of those three lists.
pub proof fn law_stale_exactly_when_something_differs(
    graph: &CodeGraph,
    current: Seq<IndexedFileMeta>,
    f: &IndexFreshness,
)
    requires
        freshness_valid(graph, current, f),
    ensures
        f.stale <==> (!f.has_metadata || f.schema_mismatch || f.changed_files@.len() > 0
            || f.missing_files@.len() > 0 || f.new_files@.len() > 0),
        str_views(f.changed_files@).to_set().disjoint(str_views(f.missing_files@).to_set()),
        str_views(f.changed_files@).to_set().disjoint(str_views(f.new_files@).to_set()),
        str_views(f.missing_files@).to_set().disjoint(str_views(f.new_files@).to_set()),
{
    if graph.metadata is None {
        assert(str_views(f.changed_files@).to_set() =~= Set::<Seq<char>>::empty());
        assert(str_views(f.missing_files@).to_set() =~= Set::<Seq<char>>::empty());
        assert(str_views(f.new_files@).to_set() =~= Set::<Seq<char>>::empty());
    }
}


/// Once a file's imports are resolved, an import that is listed as unresolved
/// or as external is one of the file's imports and names no file of the graph,
/// and no import is listed both ways.
pub proof fn law_import_outcomes_exclusive(
    old: FileNodeModel,
    new: FileNodeModel,
    paths: Seq<Seq<char>>,
    content: Option<Seq<char>>,
    imp: Seq<char>,
)
    requires
        node_resolved(old, new, paths, content),
    ensures
        !(new.unresolved_imports.contains(imp) && new.external_imports.contains(imp)),
        new.unresolved_imports.contains(imp) ==> old.imports.contains(imp) && resolution_deps(
            imp,
            old.path,
            old.language,
            paths,
            content,
        ) == Set::<Seq<char>>::empty(),
        new.external_imports.contains(imp) ==> old.imports.contains(imp) && resolution_deps(
            imp,
            old.path,
            old.language,
            paths,
            content,
        ) == Set::<Seq<char>>::empty(),
{
    if new.unresolved_imports.contains(imp) {
        assert(new.unresolved_imports.to_set().contains(imp));
        assert(unresolved_set(old, paths, content).contains(imp));
        let j = choose|j: int| 0 <= j < old.imports.len() && #[trigger] old.imports[j] == imp
            && resolution_unresolved(imp, old.path, old.language, paths, content);
        assert(old.imports.contains(imp));
    }
    if new.external_imports.contains(imp) {
        assert(new.external_imports.to_set().contains(imp));
        assert(external_set(old, paths, content).contains(imp));
        let j = choose|j: int| 0 <= j < old.imports.len() && #[trigger] old.imports[j] == imp
            && resolution_external(imp, old.path, old.language, paths, content);
        assert(old.imports.contains(imp));
    }
}


proof fn lemma_first_in_is_a_path(cands: Seq<Seq<char>>, paths: Seq<Seq<char>>)
    ensures
        first_in(cands, paths) matches Some(p) ==> paths.contains(p),
    decreases cands.len(),
{
    if cands.len() > 0 && !paths.contains(cands[0]) {
        lemma_first_in_is_a_path(cands.drop_first(), paths);
    }
}

proof fn lemma_first_go_match_is_a_path(paths: Seq<Seq<char>>, last: Seq<char>)
    ensures
        first_go_match(paths, last) matches Some(p) ==> paths.contains(p),
    decreases paths.len(),
{
    if paths.len() > 0 {
        assert(paths[0] == paths[0]);
        if !go_matches(paths[0], last) {
            lemma_first_go_match_is_a_path(paths.drop_first(), last);
            if let Some(p) = first_go_match(paths, last) {
                let i = choose|i: int| 0 <= i < paths.drop_first().len() && paths.drop_first()[i] == p;
                assert(paths[i + 1] == p);
            }
        }
    }
}

proof fn lemma_segments_from_is_a_path(root: Seq<char>, segs: Seq<Seq<char>>, paths: Seq<Seq<char>>, len: int)
    ensures
        resolve_segments_from(root, segs, paths, len) matches Some(p) ==> paths.contains(p),
    decreases len,
{
    if len > 0 && !paths.contains(file_candidate(root, segs, len)) && !paths.contains(mod_candidate(root, segs, len)) {
        lemma_segments_from_is_a_path(root, segs, paths, len - 1);
    }
}

proof fn lemma_rust_one_is_a_path(
    expanded: Seq<char>,
    root: Seq<char>,
    module: Seq<Seq<char>>,
    paths: Seq<Seq<char>>,
    content: Option<Seq<char>>,
)
    ensures
        resolve_rust_one(expanded, root, module, paths, content) matches Some(p) ==> paths.contains(p),
{
    if let Some(name) = declared_child(expanded, content) {
        let segs = module.push(name);
        lemma_segments_from_is_a_path(root, segs, paths, segs.len() as int);
    }
    if let Some(segs) = import_segments(expanded, module) {
        lemma_segments_from_is_a_path(root, segs, paths, segs.len() as int);
    }
    if let Some(s2) = import_segments(expanded, module.push("tests"@)) {
        lemma_segments_from_is_a_path(root, s2, paths, s2.len() as int);
    }
}

/// Every file an import resolves to is one of the graph's files.
proof fn lemma_resolution_deps_are_paths(
    import: Seq<char>,
    file: Seq<char>,
    language: Language,
    paths: Seq<Seq<char>>,
    content: Option<Seq<char>>,
    d: Seq<char>,
)
    requires
        resolution_deps(import, file, language, paths, content).contains(d),
    ensures
        paths.contains(d),
{
    match language {
        Language::Rust => {
            let root = src_root(file);
            let module = module_segments(file, root);
            let ex = expand_rust(import);
            let j = choose|j: int| 0 <= j < ex.len() && #[trigger] resolve_rust_one(ex[j], root, module, paths, content) == Some(d);
            lemma_rust_one_is_a_path(ex[j], root, module, paths, content);
        },
        Language::TypeScript | Language::JavaScript => {
            lemma_first_in_is_a_path(with_suffixes(normalize(dir_of(file), import), js_suffixes()), paths);
        },
        Language::Python => {
            let as_path = if starts_with(import, "."@) {
                py_relative(import, file)
            } else {
                Some(replace_char(import, '.', '/'))
            };
            if let Some(ap) = as_path {
                lemma_first_in_is_a_path(python_candidates(ap), paths);
            }
        },
        Language::Go => {
            lemma_first_go_match_is_a_path(paths, after_last_slash(import));
        },
        Language::Unknown => {},
    }
}

/// Once a file's imports are resolved, each of its dependencies is one of the
/// graph's files, and none is the file itself.
pub proof fn law_resolved_deps_are_graph_files(
    old: FileNodeModel,
    new: FileNodeModel,
    paths: Seq<Seq<char>>,
    content: Option<Seq<char>>,
    d: Seq<char>,
)
    requires
        node_resolved(old, new, paths, content),
        new.deps.contains(d),
    ensures
        paths.contains(d),
        d != new.path,
{
    assert(new.deps.to_set().contains(d));
    assert(resolved_deps_set(old, paths, content).contains(d));
    let j = choose|j: int| 0 <= j < old.imports.len() && #[trigger] resolution_deps(old.imports[j], old.path, old.language, paths, content).contains(d);
    lemma_resolution_deps_are_paths(old.imports[j], old.path, old.language, paths, content, d);
}

/// Two well-formed graphs with the same nodes whose indexes were rebuilt hold
/// the same index: the index is a function of the nodes, so rebuilding it
/// again changes nothing.
pub proof fn law_index_determined_by_nodes(g1: &CodeGraph, g2: &CodeGraph)
    requires
        g1.wf(),
        g2.wf(),
        g1.rdeps_current(),
        g2.rdeps_current(),
        rdeps_canonical(g1.rdeps@),
        rdeps_canonical(g2.rdeps@),
        g1.node_views() == g2.node_views(),
    ensures
        rdeps_model(g1.rdeps@) == rdeps_model(g2.rdeps@),
{
    assert forall|k: Seq<char>| #[trigger] lookup_rdeps(g1.rdeps@, k).to_set() == lookup_rdeps(g2.rdeps@, k).to_set() by {
        assert(lookup_rdeps(g1.rdeps@, k).to_set() == dependents_of(g1.node_views(), k));
        assert(lookup_rdeps(g2.rdeps@, k).to_set() == dependents_of(g2.node_views(), k));
    }
    lemma_rdeps_canonical_unique(g1.rdeps@, g2.rdeps@);
}


// ---------------------------------------------------------------------------
// Symbol search
// ---------------------------------------------------------------------------

proof fn lemma_matching_exports_contains(
    exports: Seq<Seq<char>>,
    path: Seq<char>,
    language: Seq<char>,
    query: Option<Seq<char>>,
    x: (Seq<char>, Seq<char>, Seq<char>),
)
    ensures
        matching_exports(exports, path, language, query).contains(x) <==> (x.1 == path && x.2 == language
            && exists|j: int| 0 <= j < exports.len() && #[trigger] exports[j] == x.0 && symbol_matches(query, x.0, path)),
    decreases exports.len(),
{
    let m = matching_exports(exports, path, language, query);
    if exports.len() > 0 {
        let rest = exports.drop_last();
        let mr = matching_exports(rest, path, language, query);
        lemma_matching_exports_contains(rest, path, language, query, x);
        let tail = if symbol_matches(query, exports.last(), path) {
            seq![(exports.last(), path, language)]
        } else {
            Seq::empty()
        };
        assert(m == mr + tail);
        if m.contains(x) {
            let k = choose|k: int| 0 <= k < m.len() && m[k] == x;
            if k < mr.len() {
                assert(mr[k] == x);
                let j = choose|j: int| 0 <= j < rest.len() && #[trigger] rest[j] == x.0 && symbol_matches(query, x.0, path);
                assert(exports[j] == x.0);
            } else {
                assert(tail[k - mr.len()] == x);
                assert(exports[exports.len() - 1] == x.0);
            }
        }
        if x.1 == path && x.2 == language && exists|j: int| 0 <= j < exports.len() && #[trigger] exports[j] == x.0
            && symbol_matches(query, x.0, path) {
            let j = choose|j: int| 0 <= j < exports.len() && #[trigger] exports[j] == x.0 && symbol_matches(query, x.0, path);
            if j < rest.len() {
                assert(rest[j] == x.0);
                let k = choose|k: int| 0 <= k < mr.len() && mr[k] == x;
                assert(m[k] == x);
            } else {
                assert(x == (exports.last(), path, language));
                assert(m[mr.len() as int] == x);
            }
        }
    }
}

proof fn lemma_all_symbols_contains(ns: Seq<FileNodeModel>, query: Option<Seq<char>>, x: (Seq<char>, Seq<char>, Seq<char>))
    ensures
        all_symbols(ns, query).contains(x) <==> exists|i: int| 0 <= i < ns.len() && #[trigger] matching_exports(
            ns[i].exports,
            ns[i].path,
            language_label(ns[i].language),
            query,
        ).contains(x),
    decreases ns.len(),
{
    if ns.len() > 0 {
        let rest = ns.drop_last();
        let a = all_symbols(rest, query);
        let last = ns.last();
        let b = matching_exports(last.exports, last.path, language_label(last.language), query);
        lemma_all_symbols_contains(rest, query, x);
        assert(all_symbols(ns, query) == a + b);
        if (a + b).contains(x) {
            let k = choose|k: int| 0 <= k < (a + b).len() && (a + b)[k] == x;
            if k < a.len() {
                assert(a[k] == x);
                let i = choose|i: int| 0 <= i < rest.len() && #[trigger] matching_exports(
                    rest[i].exports,
                    rest[i].path,
                    language_label(rest[i].language),
                    query,
                ).contains(x);
                assert(rest[i] == ns[i]);
            } else {
                assert(b[k - a.len()] == x);
                assert(ns[ns.len() - 1] == last);
                assert(matching_exports(
                    ns[ns.len() - 1].exports,
                    ns[ns.len() - 1].path,
                    language_label(ns[ns.len() - 1].language),
                    query,
                ).contains(x));
            }
        }
        if exists|i: int| 0 <= i < ns.len() && #[trigger] matching_exports(
            ns[i].exports,
            ns[i].path,
            language_label(ns[i].language),
            query,
        ).contains(x) {
            let i = choose|i: int| 0 <= i < ns.len() && #[trigger] matching_exports(
                ns[i].exports,
                ns[i].path,
                language_label(ns[i].language),
                query,
            ).contains(x);
            if i < rest.len() {
                assert(rest[i] == ns[i]);
                let k = choose|k: int| 0 <= k < a.len() && a[k] == x;
                assert((a + b)[k] == x);
            } else {
                assert(ns[i] == last);
                assert(b.contains(x));
                let k = choose|k: int| 0 <= k < b.len() && b[k] == x;
                assert((a + b)[a.len() + k] == x);
            }
        }
    }
}

/// Symbol search ignores case on both sides: with a query `q`, the symbol `s`
/// of the file `p` is listed exactly when `s` or `p`, lower-cased, contains
/// `q` lower-cased.
pub proof fn law_symbol_search_folds_case(
    ns: Seq<FileNodeModel>,
    q: Seq<char>,
    s: Seq<char>,
    p: Seq<char>,
    l: Seq<char>,
)
    ensures
        all_symbols(ns, Some(q)).contains((s, p, l)) <==> exists|i: int, j: int|
            0 <= i < ns.len() && 0 <= j < ns[i].exports.len() && ns[i].path == p && #[trigger] ns[i].exports[j] == s
                && language_label(ns[i].language) == l && (contains_seq(lowercase(s), lowercase(q))
                || contains_seq(lowercase(p), lowercase(q))),
{
    let x = (s, p, l);
    lemma_all_symbols_contains(ns, Some(q), x);
    if all_symbols(ns, Some(q)).contains(x) {
        let i = choose|i: int| 0 <= i < ns.len() && #[trigger] matching_exports(
            ns[i].exports,
            ns[i].path,
            language_label(ns[i].language),
            Some(q),
        ).contains(x);
        lemma_matching_exports_contains(ns[i].exports, ns[i].path, language_label(ns[i].language), Some(q), x);
        let j = choose|j: int| 0 <= j < ns[i].exports.len() && #[trigger] ns[i].exports[j] == s
            && symbol_matches(Some(q), s, ns[i].path);
        assert(ns[i].exports[j] == s);
    }
    if exists|i: int, j: int|
        0 <= i < ns.len() && 0 <= j < ns[i].exports.len() && ns[i].path == p && #[trigger] ns[i].exports[j] == s
            && language_label(ns[i].language) == l && (contains_seq(lowercase(s), lowercase(q))
            || contains_seq(lowercase(p), lowercase(q))) {
        let (i, j) = choose|i: int, j: int|
            0 <= i < ns.len() && 0 <= j < ns[i].exports.len() && ns[i].path == p && #[trigger] ns[i].exports[j] == s
                && language_label(ns[i].language) == l && (contains_seq(lowercase(s), lowercase(q))
                || contains_seq(lowercase(p), lowercase(q)));
        lemma_matching_exports_contains(ns[i].exports, ns[i].path, language_label(ns[i].language), Some(q), x);
        assert(ns[i].exports[j] == s);
    }
}

/// A query that is a symbol's name up to case (the same once lower-cased)
/// always finds that symbol.
pub proof fn law_symbol_found_by_its_name_in_any_case(ns: Seq<FileNodeModel>, q: Seq<char>, i: int, j: int)
    requires
        0 <= i < ns.len(),
        0 <= j < ns[i].exports.len(),
        lowercase(q) == lowercase(ns[i].exports[j]),
    ensures
        all_symbols(ns, Some(q)).contains((ns[i].exports[j], ns[i].path, language_label(ns[i].language))),
{
    let s = ns[i].exports[j];
    assert(occurs_at(lowercase(s), lowercase(q), 0)) by {
        assert(lowercase(s).subrange(0, lowercase(q).len() as int) =~= lowercase(q));
    }
    law_symbol_search_folds_case(ns, q, s, ns[i].path, language_label(ns[i].language));
}


// ---------------------------------------------------------------------------
// JavaScript/TypeScript resolution
// ---------------------------------------------------------------------------

/// A relative JavaScript/TypeScript import `./d` of a file in directory `D`
/// names the first of `D/d`, `D/d.ts`, `D/d.tsx`, `D/d.js`, `D/d.jsx`,
/// `D/d/index.ts`, `D/d/index.js` that is a file of the graph, and nothing
/// when none is; a package import (not starting with `.`) names no file.
pub proof fn law_js_import_candidates(import: Seq<char>, file: Seq<char>, paths: Seq<Seq<char>>)
    ensures
        !starts_with(import, "."@) ==> resolve_js(import, file, paths) is None,
        starts_with(import, "."@) ==> resolve_js(import, file, paths) == ({
            let base = normalize(dir_of(file), import);
            if paths.contains(base) {
                Some(base)
            } else if paths.contains(base + ".ts"@) {
                Some(base + ".ts"@)
            } else if paths.contains(base + ".tsx"@) {
                Some(base + ".tsx"@)
            } else if paths.contains(base + ".js"@) {
                Some(base + ".js"@)
            } else if paths.contains(base + ".jsx"@) {
                Some(base + ".jsx"@)
            } else if paths.contains(base + "/index.ts"@) {
                Some(base + "/index.ts"@)
            } else if paths.contains(base + "/index.js"@) {
                Some(base + "/index.js"@)
            } else {
                None
            }
        }),
{
    let base = normalize(dir_of(file), import);
    let c = with_suffixes(base, js_suffixes());
    reveal_strlit("");
    assert(base + ""@ =~= base);
    assert(c =~= seq![base, base + ".ts"@, base + ".tsx"@, base + ".js"@, base + ".jsx"@, base + "/index.ts"@, base + "/index.js"@]);
    reveal_with_fuel(first_in, 8);
    assert(c.drop_first() =~= seq![base + ".ts"@, base + ".tsx"@, base + ".js"@, base + ".jsx"@, base + "/index.ts"@, base + "/index.js"@]);
    assert(c.drop_first().drop_first() =~= seq![base + ".tsx"@, base + ".js"@, base + ".jsx"@, base + "/index.ts"@, base + "/index.js"@]);
    assert(c.drop_first().drop_first().drop_first() =~= seq![base + ".js"@, base + ".jsx"@, base + "/index.ts"@, base + "/index.js"@]);
    assert(c.drop_first().drop_first().drop_first().drop_first() =~= seq![base + ".jsx"@, base + "/index.ts"@, base + "/index.js"@]);
    assert(c.drop_first().drop_first().drop_first().drop_first().drop_first() =~= seq![base + "/index.ts"@, base + "/index.js"@]);
    assert(c.drop_first().drop_first().drop_first().drop_first().drop_first().drop_first() =~= seq![base + "/index.js"@]);
    assert(c.drop_first().drop_first().drop_first().drop_first().drop_first().drop_first().drop_first() =~= Seq::<Seq<char>>::empty());
}

/// In a graph scan, a relative import `./d` of a TypeScript file in directory
/// `D` depends on `D/d/index.ts` when that file is in the graph and none of
/// `D/d`, `D/d.ts`, `D/d.tsx`, `D/d.js`, `D/d.jsx` is.
pub proof fn law_js_directory_import_resolves_to_index(
    import: Seq<char>,
    file: Seq<char>,
    paths: Seq<Seq<char>>,
    content: Option<Seq<char>>,
)
    requires
        starts_with(import, "."@),
        paths.contains(normalize(dir_of(file), import) + "/index.ts"@),
        !paths.contains(normalize(dir_of(file), import)),
        !paths.contains(normalize(dir_of(file), import) + ".ts"@),
        !paths.contains(normalize(dir_of(file), import) + ".tsx"@),
        !paths.contains(normalize(dir_of(file), import) + ".js"@),
        !paths.contains(normalize(dir_of(file), import) + ".jsx"@),
    ensures
        resolution_deps(import, file, Language::TypeScript, paths, content) == Set::<Seq<char>>::empty().insert(
            normalize(dir_of(file), import) + "/index.ts"@,
        ),
        !resolution_unresolved(import, file, Language::TypeScript, paths, content),
        !resolution_external(import, file, Language::TypeScript, paths, content),
{
    law_js_import_candidates(import, file, paths);
    let d = normalize(dir_of(file), import) + "/index.ts"@;
    assert(Set::<Seq<char>>::empty().insert(d).contains(d));
}


// ---------------------------------------------------------------------------
// Changed files
// ---------------------------------------------------------------------------

/// A file recorded both in the index (as `(p, m1, b1)`) and on disk now (as
/// `(p, m2, b2)`), each path recorded once, is reported changed exactly when
/// its modification time or its size differs; and then the index is stale.
pub proof fn law_changed_when_time_or_size_differs(
    graph: &CodeGraph,
    current: Seq<IndexedFileMeta>,
    f: &IndexFreshness,
    p: Seq<char>,
    m1: u64,
    b1: u64,
    m2: u64,
    b2: u64,
)
    requires
        freshness_valid(graph, current, f),
        graph.metadata matches Some(m) && meta_paths_unique(m.indexed_files@) && meta_views(m.indexed_files@).contains(
            (p, m1, b1),
        ),
        meta_paths_unique(current),
        meta_views(current).contains((p, m2, b2)),
    ensures
        str_views(f.changed_files@).contains(p) <==> (m1 != m2 || b1 != b2),
        (m1 != m2 || b1 != b2) ==> f.stale,
        !str_views(f.missing_files@).contains(p),
        !str_views(f.new_files@).contains(p),
{
    let old = graph.metadata->0.indexed_files@;
    lemma_meta_lookup_unique(old, p, m1, b1);
    lemma_meta_lookup_unique(current, p, m2, b2);
    assert(str_views(f.changed_files@).contains(p) <==> str_views(f.changed_files@).to_set().contains(p));
    assert(str_views(f.missing_files@).contains(p) <==> str_views(f.missing_files@).to_set().contains(p));
    assert(str_views(f.new_files@).contains(p) <==> str_views(f.new_files@).to_set().contains(p));
    if m1 != m2 || b1 != b2 {
        assert(changed_set(old, current).contains(p));
        assert(str_views(f.changed_files@).contains(p));
        let k = choose|k: int| 0 <= k < str_views(f.changed_files@).len() && str_views(f.changed_files@)[k] == p;
        assert(f.changed_files@.len() > 0);
    }
}


// ---------------------------------------------------------------------------
// High-risk dependents and hints
// ---------------------------------------------------------------------------

/// The high-risk list names exactly the direct dependents (depth 1) with more
/// than three dependents of their own: no entry at depth 2 or more is ever
/// listed.
pub proof fn law_high_risk_are_direct_dependents(b: Seq<BlastEntry>, q: Seq<char>)
    ensures
        high_risk_spec(b).contains(q) <==> exists|i: int|
            0 <= i < b.len() && #[trigger] b[i].path@ == q && b[i].depth == 1 && b[i].fan_out > 3,
    decreases b.len(),
{
    if b.len() > 0 {
        let rest = b.drop_last();
        law_high_risk_are_direct_dependents(rest, q);
        let hr = high_risk_spec(rest);
        let last = b.last();
        let tail = if last.depth == 1 && last.fan_out > 3 { seq![last.path@] } else { Seq::<Seq<char>>::empty() };
        assert(high_risk_spec(b) == hr + tail);
        if (hr + tail).contains(q) {
            let k = choose|k: int| 0 <= k < (hr + tail).len() && (hr + tail)[k] == q;
            if k < hr.len() {
                assert(hr[k] == q);
                let i = choose|i: int| 0 <= i < rest.len() && #[trigger] rest[i].path@ == q && rest[i].depth == 1 && rest[i].fan_out > 3;
                assert(b[i] == rest[i]);
            } else {
                assert(tail[k - hr.len()] == q);
                assert(b[b.len() - 1] == last);
            }
        }
        if exists|i: int| 0 <= i < b.len() && #[trigger] b[i].path@ == q && b[i].depth == 1 && b[i].fan_out > 3 {
            let i = choose|i: int| 0 <= i < b.len() && #[trigger] b[i].path@ == q && b[i].depth == 1 && b[i].fan_out > 3;
            if i < rest.len() {
                assert(rest[i] == b[i]);
                let k = choose|k: int| 0 <= k < hr.len() && hr[k] == q;
                assert((hr + tail)[k] == q);
            } else {
                assert(b[i] == last);
                assert((hr + tail)[hr.len() as int] == q);
            }
        }
    }
}

proof fn lemma_max_depth_at_least(b: Seq<BlastEntry>, n: nat)
    ensures
        max_depth(b) >= n && n > 0 <==> n > 0 && exists|i: int| 0 <= i < b.len() && #[trigger] b[i].depth >= n,
    decreases b.len(),
{
    if b.len() > 0 {
        let rest = b.drop_last();
        lemma_max_depth_at_least(rest, n);
        if exists|i: int| 0 <= i < rest.len() && #[trigger] rest[i].depth >= n {
            let i = choose|i: int| 0 <= i < rest.len() && #[trigger] rest[i].depth >= n;
            assert(b[i] == rest[i]);
        }
        if exists|i: int| 0 <= i < b.len() && #[trigger] b[i].depth >= n {
            let i = choose|i: int| 0 <= i < b.len() && #[trigger] b[i].depth >= n;
            if i < rest.len() {
                assert(rest[i] == b[i]);
            }
        }
    }
}

/// The next-step hints of a non-empty blast radius: one about high-risk
/// dependents exactly when some direct dependent has more than three
/// dependents of its own, always one about tests, and one about the cascade
/// exactly when some entry lies at depth 3 or more. An empty blast radius has
/// no hints.
pub proof fn law_blast_hint_count(file: Seq<char>, b: Seq<BlastEntry>)
    ensures
        b.len() == 0 ==> blast_hints_spec(file, b).len() == 0,
        b.len() > 0 ==> blast_hints_spec(file, b).len() == 1 + (if exists|i: int|
            0 <= i < b.len() && #[trigger] b[i].depth == 1 && b[i].fan_out > 3 {
            1int
        } else {
            0int
        }) + (if exists|i: int| 0 <= i < b.len() && #[trigger] b[i].depth >= 3 {
            1int
        } else {
            0int
        }),
{
    lemma_max_depth_at_least(b, 3);
    if exists|i: int| 0 <= i < b.len() && #[trigger] b[i].depth == 1 && b[i].fan_out > 3 {
        let i = choose|i: int| 0 <= i < b.len() && #[trigger] b[i].depth == 1 && b[i].fan_out > 3;
        law_high_risk_are_direct_dependents(b, b[i].path@);
        assert(high_risk_spec(b).contains(b[i].path@));
    } else if high_risk_spec(b).len() > 0 {
        let q = high_risk_spec(b)[0];
        law_high_risk_are_direct_dependents(b, q);
        assert(high_risk_spec(b).contains(q));
    }
}


// ---------------------------------------------------------------------------
// Hotspot ranking
// ---------------------------------------------------------------------------

/// The hotspot listing is ranked: a file with more direct dependents comes
/// first; among equal numbers of dependents, the wider blast radius comes
/// first; then the file with more dependencies; then the smaller path. And a
/// hotspot left out by the limit ranks after every listed one by the same
/// rule.
pub proof fn law_hotspot_ranking(rd: Seq<RdepsEntry>, ns: Seq<FileNodeModel>, limit: nat, r: Seq<HotspotEntry>)
    requires
        top_hotspots(rd, ns, limit, r),
    ensures
        forall|i: int, j: int| #![trigger r[i], r[j]] 0 <= i < r.len() && 0 <= j < r.len() && r[i].rdeps_count
            > r[j].rdeps_count ==> i < j,
        forall|i: int, j: int| #![trigger r[i], r[j]] 0 <= i < r.len() && 0 <= j < r.len() && r[i].rdeps_count
            == r[j].rdeps_count && r[i].blast_radius_count > r[j].blast_radius_count ==> i < j,
        forall|i: int, j: int| #![trigger r[i], r[j]] 0 <= i < r.len() && 0 <= j < r.len() && r[i].rdeps_count
            == r[j].rdeps_count && r[i].blast_radius_count == r[j].blast_radius_count && r[i].deps_count
            > r[j].deps_count ==> i < j,
        forall|i: int, j: int| #![trigger r[i], r[j]] 0 <= i < r.len() && 0 <= j < r.len() && r[i].rdeps_count
            == r[j].rdeps_count && r[i].blast_radius_count == r[j].blast_radius_count && r[i].deps_count
            == r[j].deps_count && seq_lt(r[i].path@, r[j].path@) ==> i < j,
        forall|h: HotspotModel, i: int| #![trigger hot_candidates(rd, ns, ns.len() as int).contains(h), r[i]]
            hot_candidates(rd, ns, ns.len() as int).contains(h) && !hotspot_views(r).contains(h) && 0 <= i < r.len()
                ==> r[i].rdeps_count > h.rdeps_count || (r[i].rdeps_count == h.rdeps_count && (
                r[i].blast_radius_count > h.blast_radius_count || (r[i].blast_radius_count == h.blast_radius_count
                && (r[i].deps_count > h.deps_count || (r[i].deps_count == h.deps_count && seq_lt(
                r[i].path@,
                h.path,
            )))))),
{
    let hv = hotspot_views(r);
    assert forall|i: int, j: int| 0 <= i < r.len() && 0 <= j < r.len() && j < i implies hot_before(
        #[trigger] r[j]@,
        #[trigger] r[i]@,
    ) by {
        assert(hv[j] == r[j]@ && hv[i] == r[i]@);
    }
    assert forall|h: HotspotModel, i: int| #![trigger hot_candidates(rd, ns, ns.len() as int).contains(h), r[i]]
        hot_candidates(rd, ns, ns.len() as int).contains(h) && !hotspot_views(r).contains(h) && 0 <= i < r.len()
            implies r[i].rdeps_count > h.rdeps_count || (r[i].rdeps_count == h.rdeps_count && (
            r[i].blast_radius_count > h.blast_radius_count || (r[i].blast_radius_count == h.blast_radius_count
            && (r[i].deps_count > h.deps_count || (r[i].deps_count == h.deps_count && seq_lt(
            r[i].path@,
            h.path,
        )))))) by {
        assert(hot_before(r[i]@, h));
    }
    assert forall|i: int, j: int| #![trigger r[i], r[j]] 0 <= i < r.len() && 0 <= j < r.len() && r[i].rdeps_count
        > r[j].rdeps_count implies i < j by {
        if j < i {
            assert(hot_before(r[j]@, r[i]@));
        }
    }
    assert forall|i: int, j: int| #![trigger r[i], r[j]] 0 <= i < r.len() && 0 <= j < r.len() && r[i].rdeps_count
        == r[j].rdeps_count && r[i].blast_radius_count > r[j].blast_radius_count implies i < j by {
        if j < i {
            assert(hot_before(r[j]@, r[i]@));
        }
    }
    assert forall|i: int, j: int| #![trigger r[i], r[j]] 0 <= i < r.len() && 0 <= j < r.len() && r[i].rdeps_count
        == r[j].rdeps_count && r[i].blast_radius_count == r[j].blast_radius_count && r[i].deps_count
        > r[j].deps_count implies i < j by {
        if j < i {
            assert(hot_before(r[j]@, r[i]@));
        }
    }
    assert forall|i: int, j: int| #![trigger r[i], r[j]] 0 <= i < r.len() && 0 <= j < r.len() && r[i].rdeps_count
        == r[j].rdeps_count && r[i].blast_radius_count == r[j].blast_radius_count && r[i].deps_count
        == r[j].deps_count && seq_lt(r[i].path@, r[j].path@) implies i < j by {
        if j < i {
            assert(hot_before(r[j]@, r[i]@));
            lemma_lt_asymmetric(r[i].path@, r[j].path@);
        } else if i == j {
            lemma_lt_irreflexive(r[i].path@);
        }
    }
}

} // verus!
