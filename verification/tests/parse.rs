use atlas::graph::Language;
use atlas::parse::{
    extract_exports, extract_go_exports, extract_go_imports, extract_imports, extract_js_exports,
    extract_js_imports, extract_python_exports, extract_python_imports, extract_rust_exports,
    extract_rust_imports, from_clause_imports_exec, python_imports_from, python_public_names,
    rust_imports_from,
};

fn strings(v: &[&str]) -> Vec<String> {
    v.iter().map(|s| s.to_string()).collect()
}

#[test]
fn rust_use_crate() {
    let code = "use crate::graph::CodeGraph;\nuse crate::parse;\nuse std::path::Path;\n";
    let imports = extract_rust_imports(code);
    assert_eq!(imports.len(), 2);
    assert!(imports.contains(&"crate::graph::CodeGraph".to_string()));
    assert!(imports.contains(&"crate::parse".to_string()));
}

#[test]
fn rust_mod_declarations() {
    let code = "mod cli;\npub mod graph;\nmod parse;\n";
    let imports = extract_rust_imports(code);
    assert_eq!(imports.len(), 3);
    assert!(imports.contains(&"crate::cli".to_string()));
}

#[test]
fn rust_pub_exports() {
    let code = "pub fn scan() {}\npub struct Graph {}\nfn private() {}\npub async fn run() {}\n";
    let exports = extract_rust_exports(code);
    assert_eq!(exports.len(), 3);
    assert!(exports.contains(&"scan".to_string()));
    assert!(exports.contains(&"Graph".to_string()));
    assert!(exports.contains(&"run".to_string()));
}

#[test]
fn js_imports() {
    let code = r#"import { foo } from './bar';
import baz from "../qux";
const x = require('./lib');
"#;
    let imports = extract_js_imports(code);
    assert_eq!(imports.len(), 3);
    assert!(imports.contains(&"./bar".to_string()));
    assert!(imports.contains(&"../qux".to_string()));
    assert!(imports.contains(&"./lib".to_string()));
}

#[test]
fn python_imports() {
    let code = "import os\nfrom pathlib import Path\nimport mymodule.sub\n";
    let imports = extract_python_imports(code);
    assert_eq!(imports.len(), 3);
    assert!(imports.contains(&"os".to_string()));
    assert!(imports.contains(&"pathlib".to_string()));
    assert!(imports.contains(&"mymodule.sub".to_string()));
}

#[test]
fn go_imports() {
    let code = r#"
import "fmt"

import (
    "os"
    "github.com/foo/bar"
)
"#;
    let imports = extract_go_imports(code);
    assert_eq!(imports.len(), 3);
    assert!(imports.contains(&"fmt".to_string()));
    assert!(imports.contains(&"os".to_string()));
    assert!(imports.contains(&"github.com/foo/bar".to_string()));
}

#[test]
fn rust_imports_keep_order_uses_then_mods() {
    let code = "mod a;\nuse super::b::C;\nuse serde::Serialize;\nuse core::fmt;\nuse alloc::vec::Vec;\n";
    assert_eq!(
        extract_rust_imports(code),
        vec!["super::b::C".to_string(), "serde::Serialize".to_string(), "crate::a".to_string()]
    );
}

#[test]
fn python_from_dot_imports_expand_to_modules() {
    let code = "from . import models\nfrom .. import a, b as bee  # note\nfrom .util import helper\nfrom . import *\nfrom pkg import thing\n";
    assert_eq!(
        extract_python_imports(code),
        vec![
            ".models".to_string(),
            "..a".to_string(),
            "..b".to_string(),
            ".util".to_string(),
            ".".to_string(),
            "pkg".to_string(),
        ]
    );
}

#[test]
fn python_exports_skip_private_names() {
    let code = "def public():\n    pass\ndef _private():\n    pass\nclass Model:\n    pass\n";
    assert_eq!(
        extract_python_exports(code),
        vec!["public".to_string(), "Model".to_string()]
    );
}

#[test]
fn js_exports_and_go_exports() {
    let js = "export default function main() {}\nexport const value = 1;\nconst hidden = 2;\n";
    assert_eq!(
        extract_js_exports(js),
        vec!["main".to_string(), "value".to_string()]
    );
    let go = "func Run() {}\nfunc helper() {}\nfunc (s *Server) Serve() {}\n";
    assert_eq!(
        extract_go_exports(go),
        vec!["Run".to_string(), "Serve".to_string()]
    );
}

#[test]
fn dispatch_by_language() {
    let code = "import os\n";
    assert_eq!(extract_imports(code, Language::Python), vec!["os".to_string()]);
    assert!(extract_imports(code, Language::Unknown).is_empty());
    assert!(extract_exports("pub fn f() {}\n", Language::Unknown).is_empty());
    assert_eq!(
        extract_exports("pub fn f() {}\n", Language::Rust),
        vec!["f".to_string()]
    );
}

#[test]
fn rust_imports_from_matches_drop_the_standard_library() {
    let uses = strings(&["std", "std::io", "core::fmt", "alloc::vec::Vec", "serde::Serialize", "crate::a", "stdx::y"]);
    let mods = strings(&["cli", "graph"]);
    assert_eq!(
        rust_imports_from(&uses, &mods),
        strings(&["serde::Serialize", "crate::a", "stdx::y", "crate::cli", "crate::graph"])
    );
}

#[test]
fn python_post_processing_on_given_matches() {
    let imports = strings(&["os"]);
    let froms = strings(&[". import a, (b", "pkg.mod import x", ".. import *"]);
    assert_eq!(
        python_imports_from(imports, &froms),
        strings(&["os", ".a", ".b", "pkg.mod", ".."])
    );
    assert_eq!(
        python_public_names(&strings(&["run", "_hidden", "Model", "__init__"])),
        strings(&["run", "Model"])
    );
    let one: Vec<String> = from_clause_imports_exec(&". import c as d".chars().collect::<Vec<char>>())
        .iter()
        .map(|v| v.iter().collect())
        .collect();
    assert_eq!(one, strings(&[".c"]));
}

#[test]
fn rust_brace_groups_and_restricted_mods() {
    let code = "use crate::{cli, graph};\nuse super::types::{A, B};\npub(crate) mod store;\npub(super) mod cache;\nuse std::{io, fs};\n";
    assert_eq!(
        extract_rust_imports(code),
        strings(&["crate::{cli, graph}", "super::types::{A, B}", "crate::store", "crate::cache"])
    );
}

#[test]
fn js_side_effect_and_dynamic_imports() {
    let code = "import './polyfill';\nimport { a } from './a';\nconst m = await import('./lazy');\nconst r = require('./r');\n";
    assert_eq!(
        extract_js_imports(code),
        strings(&["./a", "./polyfill", "./lazy", "./r"])
    );
}
