use atlas::graph::{CodeGraph, IndexedFileMeta, Language, INDEX_SCHEMA_VERSION};
use atlas::scan::{scan_sources, SourceFile};
use atlas::store::{freshness, IndexFreshness};

fn source(path: &str, content: &str, modified: u64) -> SourceFile {
    SourceFile {
        rel_path: path.to_string(),
        language: Language::Rust,
        content: content.to_string(),
        meta: meta(path, modified, content.len() as u64),
    }
}

fn meta(path: &str, modified: u64, len: u64) -> IndexedFileMeta {
    IndexedFileMeta { path: path.to_string(), modified_unix_ms: modified, byte_len: len }
}

#[test]
fn freshness_flags_graphs_without_metadata_as_stale() {
    let graph = CodeGraph::new();

    let freshness = freshness(&graph, &vec![]);

    assert!(freshness.stale);
    assert!(!freshness.has_metadata);
    assert!(freshness.schema_mismatch);
}

#[test]
fn freshness_detects_changed_new_and_missing_files() {
    let a = "pub fn a() {}\n";
    let gone = "pub fn gone() {}\n";
    let graph = scan_sources(&vec![source("src/a.rs", a, 1), source("src/gone.rs", gone, 1)], 5, "0.1.0", "/repo");

    let now = vec![meta("src/a.rs", 1, a.len() as u64), meta("src/gone.rs", 1, gone.len() as u64)];
    let fresh = freshness(&graph, &now);
    assert!(!fresh.stale);
    assert_eq!(fresh.summary(), "index is current");

    let changed = "pub fn a_changed() {}\npub fn extra() {}\n";
    let later = vec![
        meta("src/a.rs", 2, changed.len() as u64),
        meta("src/new.rs", 2, 21),
    ];
    let stale = freshness(&graph, &later);
    assert!(stale.stale);
    assert_eq!(stale.changed_files, vec!["src/a.rs".to_string()]);
    assert_eq!(stale.missing_files, vec!["src/gone.rs".to_string()]);
    assert_eq!(stale.new_files, vec!["src/new.rs".to_string()]);
    assert_eq!(stale.schema_version, Some(INDEX_SCHEMA_VERSION));
    assert_eq!(stale.generated_at_unix_ms, Some(5));
}

#[test]
fn summaries_describe_the_index() {
    let none = freshness(&CodeGraph::new(), &vec![]);
    assert_eq!(none.summary(), "index has no metadata; run atlas scan --force");
    let stale = IndexFreshness {
        has_metadata: true,
        schema_version: Some(1),
        expected_schema_version: INDEX_SCHEMA_VERSION,
        generated_at_unix_ms: Some(1),
        stale: true,
        schema_mismatch: true,
        changed_files: vec!["a".to_string(), "b".to_string()],
        missing_files: Vec::new(),
        new_files: vec!["c".to_string()],
    };
    assert_eq!(stale.summary(), "index may be stale (schema mismatch, 2 changed, 1 new)");
    let copy = stale.duplicate();
    assert_eq!(copy.changed_files, stale.changed_files);
    assert_eq!(copy.schema_version, Some(1));
}

#[test]
fn old_schema_is_stale() {
    let mut graph = scan_sources(&vec![source("src/a.rs", "", 1)], 5, "0.1.0", "/repo");
    if let Some(m) = graph.metadata.as_mut() {
        m.schema_version = INDEX_SCHEMA_VERSION - 1;
    }
    let f = freshness(&graph, &vec![meta("src/a.rs", 1, 0)]);
    assert!(f.schema_mismatch);
    assert!(f.stale);
    assert!(f.changed_files.is_empty());
}
