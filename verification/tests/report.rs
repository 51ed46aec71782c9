use atlas::graph::{BlastEntry, CodeGraph, FileNode, GraphStats, Language, INDEX_SCHEMA_VERSION};
use atlas::report::{
    action_level_for, advice_for, blast_hints, build_doctor, deepest, direct_dependents,
    doctor_status, high_risk_paths, hotspot_entries, isolated_files, recommendation_label,
    recommended_commands_for, short_path, status_for, symbol_entries, unresolved_entries,
    external_entries, ActionLevel, AgentGates, DoctorStatus, ImportProblem, RecommendationKind,
    DOCTOR_SCHEMA_VERSION, GRAPH_CONTRACT_VERSION,
};
use atlas::store::IndexFreshness;

fn fresh_index() -> IndexFreshness {
    IndexFreshness {
        has_metadata: true,
        schema_version: Some(INDEX_SCHEMA_VERSION),
        expected_schema_version: INDEX_SCHEMA_VERSION,
        generated_at_unix_ms: Some(1),
        stale: false,
        schema_mismatch: false,
        changed_files: Vec::new(),
        missing_files: Vec::new(),
        new_files: Vec::new(),
    }
}

fn node(path: &str, deps: &[&str], unresolved: &[&str], exports: &[&str]) -> FileNode {
    FileNode {
        path: path.to_string(),
        language: Language::Rust,
        imports: Vec::new(),
        deps: deps.iter().map(|d| d.to_string()).collect(),
        unresolved_imports: unresolved.iter().map(|d| d.to_string()).collect(),
        external_imports: Vec::new(),
        exports: exports.iter().map(|d| d.to_string()).collect(),
        lines: 10,
    }
}

fn graph_of(nodes: Vec<FileNode>) -> CodeGraph {
    let mut g = CodeGraph::new();
    for n in nodes {
        g.add_node(n);
    }
    g.build_rdeps();
    g
}

fn entry(path: &str, depth: usize, via: &str, fan_out: usize) -> BlastEntry {
    BlastEntry {
        path: path.to_string(),
        depth,
        via: via.to_string(),
        fan_out,
    }
}

#[test]
fn doctor_status_warns_when_index_is_stale() {
    let stats = GraphStats {
        total_files: 1,
        total_lines: 1,
        total_deps: 0,
        total_unresolved_imports: 0,
        total_external_imports: 0,
        by_language: Vec::new(),
    };
    let freshness = IndexFreshness {
        has_metadata: true,
        schema_version: Some(INDEX_SCHEMA_VERSION),
        expected_schema_version: INDEX_SCHEMA_VERSION,
        generated_at_unix_ms: Some(1),
        stale: true,
        schema_mismatch: false,
        changed_files: vec!["src/lib.rs".to_string()],
        missing_files: Vec::new(),
        new_files: Vec::new(),
    };

    assert_eq!(doctor_status(&stats, &freshness), "warning");
}

#[test]
fn doctor_action_refreshes_stale_index_before_unresolved_review() {
    let gates = AgentGates {
        files_indexed: true,
        index_has_metadata: true,
        schema_current: true,
        source_delta_clear: false,
        index_fresh: false,
        unresolved_imports_clear: false,
    };

    assert_eq!(action_level_for(&gates), ActionLevel::Refresh);
    assert_eq!(status_for(ActionLevel::Refresh), DoctorStatus::Caution);
    let recommendations = recommended_commands_for(ActionLevel::Refresh, &gates, &[]);
    assert_eq!(recommendations[0].reason_code, "index_not_fresh");
    assert!(recommendations[0].required);
}

#[test]
fn doctor_action_reviews_current_unresolved_imports() {
    let gates = AgentGates {
        files_indexed: true,
        index_has_metadata: true,
        schema_current: true,
        source_delta_clear: true,
        index_fresh: true,
        unresolved_imports_clear: false,
    };
    let unresolved = vec![ImportProblem {
        file: "src/lib.rs".to_string(),
        import: "./missing".to_string(),
    }];

    assert_eq!(action_level_for(&gates), ActionLevel::Review);
    assert_eq!(status_for(ActionLevel::Review), DoctorStatus::Blocked);
    let recommendations = recommended_commands_for(ActionLevel::Review, &gates, &unresolved);
    assert!(recommendations
        .iter()
        .any(|command| command.reason_code == "unresolved_local_imports" && command.required));
    assert!(recommendations
        .iter()
        .any(|command| command.argv.as_ref().is_some_and(|argv| argv
            == &[
                "atlas".to_string(),
                "deps".to_string(),
                "src/lib.rs".to_string()
            ])));
}

#[test]
fn doctor_action_stops_when_no_files_are_indexed() {
    let gates = AgentGates {
        files_indexed: false,
        index_has_metadata: true,
        schema_current: true,
        source_delta_clear: true,
        index_fresh: true,
        unresolved_imports_clear: true,
    };

    assert_eq!(action_level_for(&gates), ActionLevel::Stop);
    assert_eq!(status_for(ActionLevel::Stop), DoctorStatus::Blocked);
}

#[test]
fn clean_doctor_gates_are_ready() {
    let gates = AgentGates {
        files_indexed: true,
        index_has_metadata: true,
        schema_current: true,
        source_delta_clear: true,
        index_fresh: true,
        unresolved_imports_clear: true,
    };

    assert_eq!(action_level_for(&gates), ActionLevel::NoAction);
    assert_eq!(status_for(ActionLevel::NoAction), DoctorStatus::Ready);
}

#[test]
fn strict_exit_codes_cover_atlas_actions() {
    assert_eq!(ActionLevel::NoAction.strict_exit_code(), 0);
    assert_eq!(ActionLevel::Refresh.strict_exit_code(), 10);
    assert_eq!(ActionLevel::Review.strict_exit_code(), 30);
    assert_eq!(ActionLevel::Stop.strict_exit_code(), 30);
}

#[test]
fn labels_of_statuses_and_levels() {
    assert_eq!(DoctorStatus::Ready.label(), "ready");
    assert_eq!(DoctorStatus::Caution.label(), "caution");
    assert_eq!(DoctorStatus::Blocked.label(), "blocked");
    assert_eq!(ActionLevel::NoAction.label(), "none");
    assert_eq!(ActionLevel::Refresh.label(), "refresh");
    assert_eq!(ActionLevel::Review.label(), "review");
    assert_eq!(ActionLevel::Stop.label(), "stop");
}

#[test]
fn refresh_advice_lists_its_reasons() {
    let gates = AgentGates {
        files_indexed: true,
        index_has_metadata: false,
        schema_current: false,
        source_delta_clear: false,
        index_fresh: false,
        unresolved_imports_clear: true,
    };
    assert_eq!(
        advice_for(ActionLevel::Refresh, &gates),
        "refresh the graph before making dependency or blast-radius claims (missing metadata, schema mismatch, source files changed since scan)"
    );
    let only_stale = AgentGates {
        files_indexed: true,
        index_has_metadata: true,
        schema_current: true,
        source_delta_clear: true,
        index_fresh: false,
        unresolved_imports_clear: true,
    };
    assert_eq!(
        advice_for(ActionLevel::Refresh, &only_stale),
        "refresh the graph before making dependency or blast-radius claims (stale index)"
    );
}

#[test]
fn clean_gates_recommend_the_normal_workflow() {
    let gates = AgentGates {
        files_indexed: true,
        index_has_metadata: true,
        schema_current: true,
        source_delta_clear: true,
        index_fresh: true,
        unresolved_imports_clear: true,
    };
    let commands = recommended_commands_for(ActionLevel::NoAction, &gates, &[]);
    assert_eq!(commands.len(), 2);
    assert_eq!(commands[0].kind, RecommendationKind::Manual);
    assert_eq!(commands[0].reason_code, "normal_graph_workflow");
    assert!(commands[0].command.is_none());
    assert_eq!(commands[1].kind, RecommendationKind::Command);
    assert_eq!(commands[1].command.as_deref(), Some("atlas hotspots --limit 20"));
    assert!(commands.iter().all(|c| !c.required));
    assert_eq!(
        recommendation_label(&commands[1]),
        "optional: atlas hotspots --limit 20 (review_hotspots)"
    );
}

#[test]
fn empty_graph_stops_with_required_scan() {
    let gates = AgentGates {
        files_indexed: false,
        index_has_metadata: false,
        schema_current: false,
        source_delta_clear: true,
        index_fresh: false,
        unresolved_imports_clear: true,
    };
    let commands = recommended_commands_for(ActionLevel::Stop, &gates, &[]);
    assert_eq!(commands.len(), 2);
    assert_eq!(commands[0].reason_code, "no_files_indexed");
    assert_eq!(
        commands[0].argv,
        Some(vec!["atlas".to_string(), "scan".to_string(), "--force".to_string()])
    );
    assert_eq!(recommendation_label(&commands[0]), "required: atlas scan --force (no_files_indexed)");
}

#[test]
fn review_without_known_file_uses_placeholder() {
    let gates = AgentGates {
        files_indexed: true,
        index_has_metadata: true,
        schema_current: true,
        source_delta_clear: true,
        index_fresh: true,
        unresolved_imports_clear: false,
    };
    let commands = recommended_commands_for(ActionLevel::Review, &gates, &[]);
    assert_eq!(commands[1].label, "atlas deps <file>");
}

#[test]
fn short_path_keeps_last_two_segments() {
    assert_eq!(short_path("a/b/c/d.rs"), "c/d.rs");
    assert_eq!(short_path("b/c.rs"), "b/c.rs");
    assert_eq!(short_path("c.rs"), "c.rs");
    assert_eq!(short_path(""), "");
}

#[test]
fn blast_hints_for_a_deep_wide_radius() {
    let blast = vec![
        entry("src/a.rs", 1, "src/lib/core.rs", 5),
        entry("src/b.rs", 1, "src/lib/core.rs", 0),
        entry("src/c.rs", 2, "src/a.rs", 1),
        entry("src/d.rs", 3, "src/c.rs", 0),
    ];
    assert_eq!(direct_dependents(&blast), 2);
    assert_eq!(deepest(&blast), 3);
    assert_eq!(high_risk_paths(&blast), vec!["src/a.rs".to_string()]);
    assert_eq!(
        blast_hints("src/lib/core.rs", &blast),
        vec![
            "Review 1 high-risk direct dependent(s) first — changes there cascade further".to_string(),
            "Run tests covering lib/core.rs and its 2 direct dependent(s)".to_string(),
            "Cascade reaches depth 3 — consider whether the API boundary at depth 1 can absorb this change".to_string(),
        ]
    );
}

#[test]
fn blast_hints_for_many_direct_dependents() {
    let blast: Vec<BlastEntry> = (0..7)
        .map(|i| entry(&format!("f{i}.rs"), 1, "core.rs", 0))
        .collect();
    assert_eq!(
        blast_hints("core.rs", &blast),
        vec!["Run full test suite — 7 direct dependents is broad impact".to_string()]
    );
    assert!(blast_hints("core.rs", &[]).is_empty());
}

#[test]
fn import_problem_listings_follow_paths() {
    let g = graph_of(vec![
        node("src/b.rs", &[], &["crate::x", "crate::y"], &[]),
        node("src/a.rs", &[], &["crate::z"], &[]),
    ]);
    let all = unresolved_entries(&g, 10);
    let pairs: Vec<(String, String)> = all.iter().map(|p| (p.file.clone(), p.import.clone())).collect();
    assert_eq!(
        pairs,
        vec![
            ("src/a.rs".to_string(), "crate::z".to_string()),
            ("src/b.rs".to_string(), "crate::x".to_string()),
            ("src/b.rs".to_string(), "crate::y".to_string()),
        ]
    );
    assert_eq!(unresolved_entries(&g, 1).len(), 1);
    assert!(external_entries(&g, 10).is_empty());
}

#[test]
fn isolated_files_have_no_edges() {
    let g = graph_of(vec![
        node("src/a.rs", &["src/b.rs"], &[], &[]),
        node("src/b.rs", &[], &[], &[]),
        node("src/c.rs", &[], &[], &[]),
        node("src/d.rs", &[], &[], &[]),
    ]);
    assert_eq!(
        isolated_files(&g, 10),
        vec!["src/c.rs".to_string(), "src/d.rs".to_string()]
    );
    assert_eq!(isolated_files(&g, 1), vec!["src/c.rs".to_string()]);
}

#[test]
fn hotspots_rank_by_dependents_then_blast() {
    let g = graph_of(vec![
        node("src/main.rs", &["src/a.rs", "src/core.rs"], &[], &[]),
        node("src/a.rs", &["src/core.rs"], &[], &[]),
        node("src/core.rs", &[], &[], &[]),
        node("src/lone.rs", &[], &[], &[]),
    ]);
    let hot = hotspot_entries(&g, 10);
    let paths: Vec<&str> = hot.iter().map(|h| h.path.as_str()).collect();
    assert_eq!(paths, vec!["src/core.rs", "src/a.rs"]);
    assert_eq!(hot[0].rdeps_count, 2);
    assert_eq!(hot[0].blast_radius_count, 2);
    assert_eq!(hot[0].language, "rust");
    assert_eq!(hot[1].rdeps_count, 1);
    assert_eq!(hot[1].deps_count, 1);
    assert_eq!(hotspot_entries(&g, 1).len(), 1);
}

#[test]
fn symbols_match_names_and_paths_ignoring_case() {
    let g = graph_of(vec![
        node("src/graph.rs", &[], &[], &["CodeGraph", "FileNode"]),
        node("src/scan.rs", &[], &[], &["scan_project"]),
    ]);
    let all = symbol_entries(&g, None, 50);
    assert_eq!(all.len(), 3);
    let by_name = symbol_entries(&g, Some("GRAPH"), 50);
    let names: Vec<&str> = by_name.iter().map(|s| s.symbol.as_str()).collect();
    assert_eq!(names, vec!["CodeGraph", "FileNode"]);
    assert_eq!(by_name[0].path, "src/graph.rs");
    assert_eq!(by_name[0].language, "rust");
    let by_symbol = symbol_entries(&g, Some("Scan_P"), 50);
    assert_eq!(by_symbol.len(), 1);
    assert_eq!(by_symbol[0].symbol, "scan_project");
    assert!(symbol_entries(&g, Some("nothing"), 50).is_empty());
    assert_eq!(symbol_entries(&g, None, 2).len(), 2);
}

#[test]
fn doctor_report_on_a_clean_graph() {
    let g = graph_of(vec![
        node("src/main.rs", &["src/lib.rs"], &[], &[]),
        node("src/lib.rs", &[], &[], &["run"]),
    ]);
    assert!(g.totals_in_range());
    let d = build_doctor(&g, &fresh_index(), 10);
    assert_eq!(d.schema_version, DOCTOR_SCHEMA_VERSION);
    assert_eq!(d.schema_version, "atlas.doctor.v1");
    assert_eq!(d.graph_contract_version, GRAPH_CONTRACT_VERSION);
    assert_eq!(d.action_level, ActionLevel::NoAction);
    assert_eq!(d.status, DoctorStatus::Ready);
    assert_eq!(d.health.status, "healthy");
    assert_eq!(d.health.total_files, 2);
    assert_eq!(d.health.total_deps, 1);
    assert_eq!(d.hotspots.len(), 1);
    assert_eq!(d.hotspots[0].path, "src/lib.rs");
    assert!(d.isolated_files.is_empty());
    assert_eq!(d.recommendations.len(), 2);
    assert_eq!(
        d.recommendations[0],
        "optional: Use atlas impact <file> before editing the target file (normal_graph_workflow)"
    );
    assert!(!d.index.stale);
}

#[test]
fn doctor_report_on_a_stale_graph_with_gaps() {
    let g = graph_of(vec![node("src/app.rs", &[], &["crate::missing"], &[])]);
    let mut freshness = fresh_index();
    freshness.stale = true;
    freshness.changed_files = vec!["src/app.rs".to_string()];
    let d = build_doctor(&g, &freshness, 10);
    assert_eq!(d.action_level, ActionLevel::Refresh);
    assert_eq!(d.status, DoctorStatus::Caution);
    assert_eq!(d.health.status, "warning");
    assert!(!d.gates.source_delta_clear);
    assert_eq!(d.unresolved_imports.len(), 1);
    assert_eq!(d.recommended_commands[0].reason_code, "index_not_fresh");
    assert_eq!(d.recommended_commands[1].reason_code, "unresolved_local_imports");
    assert!(!d.recommended_commands[1].required);
    assert_eq!(d.recommended_commands[2].label, "atlas deps src/app.rs");
    assert_eq!(d.index.changed_files, vec!["src/app.rs".to_string()]);
    assert_eq!(d.isolated_files, vec!["src/app.rs".to_string()]);
}

#[test]
fn doctor_report_on_an_empty_graph() {
    let g = CodeGraph::new();
    let d = build_doctor(&g, &fresh_index(), 10);
    assert_eq!(d.action_level, ActionLevel::Stop);
    assert_eq!(d.status, DoctorStatus::Blocked);
    assert_eq!(
        d.advice,
        "no source files are indexed; scan the repo or verify Atlas supports the project layout before using graph results"
    );
    assert_eq!(d.action_level.strict_exit_code(), 30);
}
