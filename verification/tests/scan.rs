use atlas::graph::{CodeGraph, FileNode, IndexedFileMeta, Language, INDEX_SCHEMA_VERSION};
use atlas::scan::{count_lines, current_source_file_metadata, is_ignored, scan_sources, SourceFile};

fn source(path: &str, content: &str) -> SourceFile {
    let ext = path.rsplit('.').next().unwrap_or("");
    SourceFile {
        rel_path: path.to_string(),
        language: Language::from_extension(ext),
        content: content.to_string(),
        meta: IndexedFileMeta {
            path: path.to_string(),
            modified_unix_ms: 7,
            byte_len: content.len() as u64,
        },
    }
}

fn scan(files: Vec<SourceFile>) -> CodeGraph {
    let kept: Vec<SourceFile> = files
        .into_iter()
        .filter(|f| !f.rel_path.split('/').any(is_ignored))
        .collect();
    scan_sources(&kept, 42, "0.1.0", "/repo")
}

fn get<'a>(g: &'a CodeGraph, path: &str) -> &'a FileNode {
    g.get(path).unwrap()
}

#[test]
fn resolves_rust_deps_in_nested_crate_root() {
    let g = scan(vec![
        source("app/src-tauri/src/lib.rs", "pub mod memory;\n"),
        source(
            "app/src-tauri/src/memory/mod.rs",
            "pub mod hillock_engine;\npub mod store;\npub mod types;\npub enum MemoryError {}\n",
        ),
        source("app/src-tauri/src/memory/types.rs", "pub struct ClusterSummary;\n"),
        source("app/src-tauri/src/memory/store.rs", "pub struct MemoryCategory;\n"),
        source(
            "app/src-tauri/src/memory/hillock_engine.rs",
            "use super::types::{ClusterSummary};\nuse super::MemoryError;\nuse crate::memory::store::MemoryCategory;\n",
        ),
    ]);
    let node = get(&g, "app/src-tauri/src/memory/hillock_engine.rs");
    assert!(node.deps.contains(&"app/src-tauri/src/memory/types.rs".to_string()));
    assert!(node.deps.contains(&"app/src-tauri/src/memory/store.rs".to_string()));
    assert!(node.deps.contains(&"app/src-tauri/src/memory/mod.rs".to_string()));
}

#[test]
fn resolves_mod_declarations_relative_to_parent_module() {
    let g = scan(vec![
        source("src/lib.rs", "pub mod memory;\n"),
        source("src/memory/mod.rs", "pub mod types;\n"),
        source("src/memory/types.rs", "pub struct ClusterSummary;\n"),
    ]);
    assert_eq!(get(&g, "src/lib.rs").deps, vec!["src/memory/mod.rs".to_string()]);
    assert_eq!(get(&g, "src/memory/mod.rs").deps, vec!["src/memory/types.rs".to_string()]);
}

#[test]
fn unresolved_rust_import_does_not_fall_back_to_crate_root() {
    let g = scan(vec![
        source("src/lib.rs", "pub mod real;\npub struct RootThing;\n"),
        source(
            "src/real.rs",
            "use crate::missing::Thing;\nuse crate::RootThing;\nuse serde::Serialize;\npub fn real() {}\n",
        ),
    ]);
    let node = get(&g, "src/real.rs");
    assert_eq!(node.deps, vec!["src/lib.rs".to_string()]);
    assert_eq!(node.unresolved_imports, vec!["crate::missing::Thing".to_string()]);
    assert_eq!(node.external_imports, vec!["serde::Serialize".to_string()]);
}

#[test]
fn unqualified_rust_import_resolves_local_module_or_external() {
    let g = scan(vec![
        source("src/main.rs", "mod cli;\nuse anyhow::Result;\nuse cli::Cli;\nfn main() {}\n"),
        source("src/cli.rs", "pub struct Cli;\n"),
    ]);
    let node = get(&g, "src/main.rs");
    assert_eq!(node.deps, vec!["src/cli.rs".to_string()]);
    assert_eq!(node.external_imports, vec!["anyhow::Result".to_string()]);
    assert!(node.unresolved_imports.is_empty());
}

#[test]
fn resolves_js_imports_relative_to_source_file() {
    let g = scan(vec![
        source(
            "src/features/panel/view.ts",
            "import { button } from './button';\nimport { fmt } from '../../shared/format';\n",
        ),
        source("src/features/panel/button.ts", "export const button = 1;\n"),
        source("src/shared/format.ts", "export const fmt = 1;\n"),
    ]);
    let node = get(&g, "src/features/panel/view.ts");
    assert_eq!(
        node.deps,
        vec!["src/features/panel/button.ts".to_string(), "src/shared/format.ts".to_string()]
    );
    assert!(node.unresolved_imports.is_empty());
}

#[test]
fn ignores_sveltekit_generated_output() {
    let g = scan(vec![
        source("app/.svelte-kit/generated/root.js", "import missing from './root.svelte';\n"),
        source("app/src/main.ts", "import { helper } from './lib/helper';\n"),
        source("app/src/lib/helper.ts", "export const helper = 1;\n"),
    ]);
    assert!(g.get("app/.svelte-kit/generated/root.js").is_none());
    let node = get(&g, "app/src/main.ts");
    assert_eq!(node.deps, vec!["app/src/lib/helper.ts".to_string()]);
    assert!(node.unresolved_imports.is_empty());
}

#[test]
fn tracks_unresolved_local_and_external_imports() {
    let g = scan(vec![source(
        "src/app.ts",
        "import react from 'react';\nimport missing from './missing';\n",
    )]);
    let node = get(&g, "src/app.ts");
    assert_eq!(node.external_imports, vec!["react".to_string()]);
    assert_eq!(node.unresolved_imports, vec!["./missing".to_string()]);
    let stats = g.stats();
    assert_eq!(stats.total_external_imports, 1);
    assert_eq!(stats.total_unresolved_imports, 1);
}

#[test]
fn resolves_python_relative_imports() {
    let g = scan(vec![
        source("src/pkg/__init__.py", ""),
        source("src/pkg/util.py", "def helper():\n    pass\n"),
        source("src/pkg/models.py", "class Model:\n    pass\n"),
        source("src/pkg/feature.py", "from .util import helper\nfrom . import models\n"),
    ]);
    let node = get(&g, "src/pkg/feature.py");
    assert_eq!(
        node.deps,
        vec!["src/pkg/models.py".to_string(), "src/pkg/util.py".to_string()]
    );
    assert!(node.unresolved_imports.is_empty());
}

#[test]
fn resolves_go_module_path_to_top_level_package_dir() {
    let g = scan(vec![
        source(
            "cmd/app/main.go",
            "package main\nimport \"github.com/example/project/bar\"\nfunc main() {}\n",
        ),
        source("bar/foo.go", "package bar\nfunc Run() {}\n"),
    ]);
    let node = get(&g, "cmd/app/main.go");
    assert_eq!(node.deps, vec!["bar/foo.go".to_string()]);
    assert!(node.external_imports.is_empty());
}

#[test]
fn resolves_rust_imports_from_inline_test_modules() {
    let g = scan(vec![
        source("src/lib.rs", "pub mod plugin;\n"),
        source("src/plugin/mod.rs", "pub mod transport;\npub mod types;\n"),
        source("src/plugin/types.rs", "pub const MAX_IPC_PAYLOAD_BYTES: usize = 100;\n"),
        source(
            "src/plugin/transport.rs",
            r#"
pub struct PluginProcess;

#[cfg(test)]
mod tests {
    use super::super::types::MAX_IPC_PAYLOAD_BYTES;
    use super::*;

    #[test]
    fn smoke() {
        assert_eq!(MAX_IPC_PAYLOAD_BYTES, 100);
    }
}
"#,
        ),
    ]);
    let node = get(&g, "src/plugin/transport.rs");
    assert!(node.deps.contains(&"src/plugin/types.rs".to_string()));
    assert!(node.unresolved_imports.is_empty());
}

#[test]
fn scan_records_metadata_and_reverse_index() {
    let g = scan(vec![
        source("src/main.rs", "mod cli;\nfn main() {}\n"),
        source("src/cli.rs", "pub struct Cli;\npub fn parse() {}\n"),
    ]);
    let m = g.metadata.as_ref().unwrap();
    assert_eq!(m.schema_version, INDEX_SCHEMA_VERSION);
    assert_eq!(m.generated_at_unix_ms, 42);
    assert_eq!(m.atlas_version, "0.1.0");
    assert_eq!(m.repo_path, "/repo");
    assert_eq!(m.indexed_files.len(), 2);
    assert_eq!(g.rdeps_of("src/cli.rs"), vec!["src/main.rs"]);
    let cli = get(&g, "src/cli.rs");
    assert_eq!(cli.exports, vec!["Cli".to_string(), "parse".to_string()]);
    assert_eq!(cli.lines, 2);
}

#[test]
fn lines_are_counted_like_str_lines() {
    assert_eq!(count_lines(""), 0);
    assert_eq!(count_lines("a"), 1);
    assert_eq!(count_lines("a\n"), 1);
    assert_eq!(count_lines("a\nb"), 2);
    assert_eq!(count_lines("a\n\nb\n"), 3);
}

#[test]
fn ignored_directory_names() {
    for name in [".git", "target", "node_modules", "__pycache__", ".venv", "venv", "dist", "build",
        ".next", ".svelte-kit", ".nuxt", ".output", ".agent-witness", ".agent-atlas", "vendor"] {
        assert!(is_ignored(name), "{name}");
    }
    assert!(!is_ignored("src"));
    assert!(!is_ignored("targets"));
}

#[test]
fn current_metadata_is_sorted_by_path() {
    let files = vec![
        IndexedFileMeta { path: "src/b.rs".to_string(), modified_unix_ms: 2, byte_len: 20 },
        IndexedFileMeta { path: "src/a.rs".to_string(), modified_unix_ms: 1, byte_len: 10 },
        IndexedFileMeta { path: "lib/c.rs".to_string(), modified_unix_ms: 3, byte_len: 30 },
    ];
    let sorted = current_source_file_metadata(files);
    let paths: Vec<&str> = sorted.iter().map(|m| m.path.as_str()).collect();
    assert_eq!(paths, vec!["lib/c.rs", "src/a.rs", "src/b.rs"]);
    assert_eq!(sorted[1].byte_len, 10);
}

#[test]
fn brace_group_imports_resolve_each_member() {
    let g = scan(vec![
        source("src/main.rs", "mod cli;\nmod graph;\nuse crate::{cli, graph};\nfn main() {}\n"),
        source("src/cli.rs", "pub struct Cli;\n"),
        source("src/graph.rs", "pub struct Graph;\n"),
        source("src/lib.rs", "pub(crate) mod store;\n"),
        source("src/store.rs", "pub fn save() {}\n"),
    ]);
    assert_eq!(get(&g, "src/main.rs").deps, vec!["src/cli.rs".to_string(), "src/graph.rs".to_string()]);
    assert_eq!(get(&g, "src/lib.rs").deps, vec!["src/store.rs".to_string()]);
}

#[test]
fn scan_metadata_is_sorted_by_path() {
    let g = scan(vec![
        source("src/z.rs", ""),
        source("src/a.rs", ""),
        source("lib/m.rs", ""),
    ]);
    let paths: Vec<&str> = g.metadata.as_ref().unwrap().indexed_files.iter().map(|m| m.path.as_str()).collect();
    assert_eq!(paths, vec!["lib/m.rs", "src/a.rs", "src/z.rs"]);
}

#[test]
fn js_side_effect_imports_become_dependencies() {
    let g = scan(vec![
        source("web/main.ts", "import './setup';\nconst v = import('./view');\n"),
        source("web/setup.ts", "export const x = 1;\n"),
        source("web/view.ts", "export const y = 1;\n"),
    ]);
    assert_eq!(get(&g, "web/main.ts").deps, vec!["web/setup.ts".to_string(), "web/view.ts".to_string()]);
}
