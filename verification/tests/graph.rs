use atlas::graph::{CodeGraph, FileNode, Language};

fn node(path: &str, language: Language, deps: &[&str], lines: usize) -> FileNode {
    FileNode {
        path: path.to_string(),
        language,
        imports: Vec::new(),
        deps: deps.iter().map(|d| d.to_string()).collect(),
        unresolved_imports: Vec::new(),
        external_imports: vec!["serde".to_string()],
        exports: Vec::new(),
        lines,
    }
}

fn chain() -> CodeGraph {
    // d -> c -> b -> a, and e -> a
    let mut g = CodeGraph::new();
    g.add_node(node("a.rs", Language::Rust, &[], 1));
    g.add_node(node("b.rs", Language::Rust, &["a.rs"], 2));
    g.add_node(node("c.rs", Language::Rust, &["b.rs"], 3));
    g.add_node(node("d.rs", Language::Rust, &["c.rs"], 4));
    g.add_node(node("e.py", Language::Python, &["a.rs"], 5));
    g.build_rdeps();
    g
}

#[test]
fn languages_from_extensions() {
    assert_eq!(Language::from_extension("rs"), Language::Rust);
    assert_eq!(Language::from_extension("ts"), Language::TypeScript);
    assert_eq!(Language::from_extension("tsx"), Language::TypeScript);
    assert_eq!(Language::from_extension("mjs"), Language::JavaScript);
    assert_eq!(Language::from_extension("cjs"), Language::JavaScript);
    assert_eq!(Language::from_extension("py"), Language::Python);
    assert_eq!(Language::from_extension("go"), Language::Go);
    assert_eq!(Language::from_extension("md"), Language::Unknown);
    assert_eq!(Language::TypeScript.label(), "typescript");
    assert_eq!(Language::Unknown.label(), "unknown");
}

#[test]
fn add_node_keeps_paths_sorted_and_replaces_same_path() {
    let mut g = CodeGraph::new();
    g.add_node(node("z.rs", Language::Rust, &[], 1));
    g.add_node(node("a.rs", Language::Rust, &[], 1));
    g.add_node(node("m.rs", Language::Rust, &[], 1));
    g.add_node(node("a.rs", Language::Go, &[], 9));
    let paths: Vec<&str> = g.nodes.iter().map(|n| n.path.as_str()).collect();
    assert_eq!(paths, vec!["a.rs", "m.rs", "z.rs"]);
    let a = g.get("a.rs").unwrap();
    assert_eq!(a.language, Language::Go);
    assert_eq!(a.lines, 9);
    assert!(g.get("b.rs").is_none());
}

#[test]
fn rdeps_are_sorted_reverse_dependencies() {
    let g = chain();
    assert_eq!(g.rdeps_of("a.rs"), vec!["b.rs", "e.py"]);
    assert_eq!(g.rdeps_of("c.rs"), vec!["d.rs"]);
    assert!(g.rdeps_of("d.rs").is_empty());
    assert!(g.rdeps_of("missing.rs").is_empty());
}

#[test]
fn blast_radius_walks_dependents_by_depth() {
    let g = chain();
    let blast = g.blast_radius("a.rs", 5);
    let got: Vec<(&str, usize, &str, usize)> = blast
        .iter()
        .map(|e| (e.path.as_str(), e.depth, e.via.as_str(), e.fan_out))
        .collect();
    assert_eq!(
        got,
        vec![
            ("b.rs", 1, "a.rs", 1),
            ("e.py", 1, "a.rs", 0),
            ("c.rs", 2, "b.rs", 1),
            ("d.rs", 3, "c.rs", 0),
        ]
    );
    let shallow = g.blast_radius("a.rs", 1);
    assert_eq!(shallow.len(), 2);
    assert!(g.blast_radius("a.rs", 0).is_empty());
    assert!(g.blast_radius("d.rs", 5).is_empty());
}

#[test]
fn blast_radius_survives_cycles() {
    let mut g = CodeGraph::new();
    g.add_node(node("a.rs", Language::Rust, &["b.rs"], 1));
    g.add_node(node("b.rs", Language::Rust, &["a.rs"], 1));
    g.build_rdeps();
    let blast = g.blast_radius("a.rs", 10);
    assert_eq!(blast.len(), 1);
    assert_eq!(blast[0].path, "b.rs");
}

#[test]
fn stats_add_up_the_nodes() {
    let g = chain();
    assert!(g.totals_in_range());
    let s = g.stats();
    assert_eq!(s.total_files, 5);
    assert_eq!(s.total_lines, 15);
    assert_eq!(s.total_deps, 4);
    assert_eq!(s.total_unresolved_imports, 0);
    assert_eq!(s.total_external_imports, 5);
    let by: Vec<(&str, usize)> = s.by_language.iter().map(|c| (c.language.as_str(), c.count)).collect();
    assert_eq!(by, vec![("rust", 4), ("python", 1)]);
}

#[test]
fn totals_out_of_range_are_detected() {
    let mut g = CodeGraph::new();
    g.add_node(node("a.rs", Language::Rust, &[], usize::MAX));
    g.add_node(node("b.rs", Language::Rust, &[], 1));
    assert!(!g.totals_in_range());
}

#[test]
fn language_counts_sort_most_files_first() {
    let g = chain();
    let s = g.stats();
    let mut more = s.by_language;
    more.push(atlas::graph::LanguageCount { language: "go".to_string(), count: 9 });
    let sorted = atlas::graph::languages_by_count(&more);
    let got: Vec<(&str, usize)> = sorted.iter().map(|c| (c.language.as_str(), c.count)).collect();
    assert_eq!(got, vec![("go", 9), ("rust", 4), ("python", 1)]);
}

#[test]
fn rebuilding_the_index_changes_nothing() {
    let mut g = chain();
    let before: Vec<(String, Vec<String>)> = g.rdeps.iter().map(|e| (e.target.clone(), e.dependents.clone())).collect();
    g.build_rdeps();
    let after: Vec<(String, Vec<String>)> = g.rdeps.iter().map(|e| (e.target.clone(), e.dependents.clone())).collect();
    assert_eq!(before, after);
    let targets: Vec<&str> = g.rdeps.iter().map(|e| e.target.as_str()).collect();
    assert_eq!(targets, vec!["a.rs", "b.rs", "c.rs"]);
    assert!(g.rdeps.iter().all(|e| !e.dependents.is_empty()));
}

#[test]
fn blast_via_is_the_first_parent_found_breadth_first() {
    // Level 2 is found in the order z (through b), then y (through c); w
    // depends on both, and is reached through z, the one found first.
    let mut g = CodeGraph::new();
    g.add_node(node("a.rs", Language::Rust, &[], 1));
    g.add_node(node("b.rs", Language::Rust, &["a.rs"], 1));
    g.add_node(node("c.rs", Language::Rust, &["a.rs"], 1));
    g.add_node(node("z.rs", Language::Rust, &["b.rs"], 1));
    g.add_node(node("y.rs", Language::Rust, &["c.rs"], 1));
    g.add_node(node("w.rs", Language::Rust, &["y.rs", "z.rs"], 1));
    g.build_rdeps();
    let blast = g.blast_radius("a.rs", 5);
    let got: Vec<(&str, usize, &str)> = blast
        .iter()
        .map(|e| (e.path.as_str(), e.depth, e.via.as_str()))
        .collect();
    assert_eq!(
        got,
        vec![
            ("b.rs", 1, "a.rs"),
            ("c.rs", 1, "a.rs"),
            ("y.rs", 2, "c.rs"),
            ("z.rs", 2, "b.rs"),
            ("w.rs", 3, "z.rs"),
        ]
    );
}
