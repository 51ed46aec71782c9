use atlas::cli::{Cli, Command, OutputFormat};
use atlas::error::AtlasError;
use atlas::resolve::{
    expand_rust_import, is_rust_local_import, normalize_relative_path, python_relative_import_path,
    rust_src_root, strip_rust_alias,
};

fn chars(s: &str) -> Vec<char> {
    s.chars().collect()
}

fn text(v: &[char]) -> String {
    v.iter().collect()
}

#[test]
fn json_format_is_detected() {
    let json = Cli { repo: None, format: OutputFormat::Json, command: Command::Stats };
    assert!(json.is_json());
    let text = Cli {
        repo: Some("/repo".to_string()),
        format: OutputFormat::Text,
        command: Command::Doctor { limit: 10, strict: true },
    };
    assert!(!text.is_json());
}

#[test]
fn errors_map_to_codes_and_messages() {
    let cases = [
        (AtlasError::Validation("bad".to_string()), 1, "validation_error", "bad"),
        (AtlasError::NotFound("File not in graph: x".to_string()), 3, "not_found", "not found: File not in graph: x"),
        (AtlasError::Io("denied".to_string()), 2, "io_error", "io error: denied"),
        (AtlasError::Json("eof".to_string()), 1, "json_error", "json error: eof"),
    ];
    for (e, code, name, message) in cases {
        assert_eq!(e.exit_code(), code);
        assert_eq!(e.error_code(), name);
        assert_eq!(e.message(), message);
    }
}

#[test]
fn relative_paths_are_normalized() {
    assert_eq!(text(&normalize_relative_path(&chars("src/features/panel"), &chars("../../shared/format"))), "src/shared/format");
    assert_eq!(text(&normalize_relative_path(&chars("src"), &chars("./a//b"))), "src/a/b");
    assert_eq!(text(&normalize_relative_path(&chars(""), &chars("../x"))), "x");
}

#[test]
fn python_relative_paths() {
    let p = python_relative_import_path(&chars(".util"), &chars("src/pkg/feature.py")).unwrap();
    assert_eq!(text(&p), "src/pkg/util");
    let up = python_relative_import_path(&chars("..core.models"), &chars("src/pkg/feature.py")).unwrap();
    assert_eq!(text(&up), "src/core/models");
    assert!(python_relative_import_path(&chars("os"), &chars("src/a.py")).is_none());
}

#[test]
fn rust_import_helpers() {
    assert!(is_rust_local_import(&chars("crate::a")));
    assert!(is_rust_local_import(&chars("super::a")));
    assert!(is_rust_local_import(&chars("self::a")));
    assert!(!is_rust_local_import(&chars("serde::Serialize")));
    assert_eq!(text(&strip_rust_alias(&chars("crate::a::B as C"))), "crate::a::B");
    let expanded: Vec<String> = expand_rust_import(&chars("super::types::{self, A, B as Bee, }"))
        .iter()
        .map(|v| text(v))
        .collect();
    assert_eq!(expanded, vec!["super::types", "super::types::A", "super::types::B"]);
    assert_eq!(text(&rust_src_root(&chars("app/src-tauri/src/memory/mod.rs"))), "app/src-tauri/src");
    assert_eq!(text(&rust_src_root(&chars("lib/a.rs"))), "src");
}
