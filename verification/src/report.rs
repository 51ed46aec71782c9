//! The doctor's decision rules, the hotspot, symbol and map-warning listings,
//! and the next-step hints of a blast radius.
use vstd::prelude::*;
use crate::graph::{
    blast_set, language_label, lookup_rdeps, total, BlastEntry, CodeGraph, NodeMeasure, FileNodeModel, GraphStats, Language,
    RdepsEntry,
};
use crate::store::{same_freshness, IndexFreshness};
use crate::order::{lemma_lt_total, lemma_lt_transitive, seq_lt, str_lt, str_views, strs_view};
use crate::text::{
    cat, chars_of, contains_exec, contains_seq, decimal, decimal_chars, join, join_exec,
    last_index_before, last_index_of, last_index_of_exec, lemma_last_index_before, string_of, views,
};

verus! {

/// Whether graph results are ready for planning.
#[derive(Debug, Clone, Copy, PartialEq, Eq, Structural)]
pub enum DoctorStatus {
    Ready,
    Caution,
    Blocked,
}

pub open spec fn doctor_status_label(s: DoctorStatus) -> Seq<char> {
    match s {
        DoctorStatus::Ready => "ready"@,
        DoctorStatus::Caution => "caution"@,
        DoctorStatus::Blocked => "blocked"@,
    }
}

impl DoctorStatus {
    /// The lower-case name of the status.
    pub fn label(self) -> (r: &'static str)
        ensures
            r@ == doctor_status_label(self),
    {
        match self {
            DoctorStatus::Ready => "ready",
            DoctorStatus::Caution => "caution",
            DoctorStatus::Blocked => "blocked",
        }
    }
}

/// What an agent should do before trusting the graph.
#[derive(Debug, Clone, Copy, PartialEq, Eq, Structural)]
pub enum ActionLevel {
    NoAction,
    Refresh,
    Review,
    Stop,
}

pub open spec fn action_level_label(a: ActionLevel) -> Seq<char> {
    match a {
        ActionLevel::NoAction => "none"@,
        ActionLevel::Refresh => "refresh"@,
        ActionLevel::Review => "review"@,
        ActionLevel::Stop => "stop"@,
    }
}

/// The exit code of `doctor --strict` for an action level.
pub open spec fn strict_exit(a: ActionLevel) -> i32 {
    match a {
        ActionLevel::NoAction => 0,
        ActionLevel::Refresh => 10,
        ActionLevel::Review | ActionLevel::Stop => 30,
    }
}

impl ActionLevel {
    /// The lower-case name of the action level.
    pub fn label(self) -> (r: &'static str)
        ensures
            r@ == action_level_label(self),
    {
        match self {
            ActionLevel::NoAction => "none",
            ActionLevel::Refresh => "refresh",
            ActionLevel::Review => "review",
            ActionLevel::Stop => "stop",
        }
    }

    /// The exit code of `doctor --strict`: 0 for none, 10 for refresh, 30 for
    /// review or stop.
    pub fn strict_exit_code(self) -> (r: i32)
        ensures
            r == strict_exit(self),
    {
        match self {
            ActionLevel::NoAction => 0,
            ActionLevel::Refresh => 10,
            ActionLevel::Review | ActionLevel::Stop => 30,
        }
    }
}

/// The checks the doctor runs on a graph.
#[derive(Debug, Clone, Copy, PartialEq, Eq, Structural)]
pub struct AgentGates {
    pub files_indexed: bool,
    pub index_has_metadata: bool,
    pub schema_current: bool,
    pub source_delta_clear: bool,
    pub index_fresh: bool,
    pub unresolved_imports_clear: bool,
}

/// The gates of a graph with these statistics and this freshness.
pub open spec fn gates_spec(stats: &GraphStats, f: &IndexFreshness) -> AgentGates {
    AgentGates {
        files_indexed: stats.total_files > 0,
        index_has_metadata: f.has_metadata,
        schema_current: !f.schema_mismatch,
        source_delta_clear: f.changed_files@.len() == 0 && f.missing_files@.len() == 0 && f.new_files@.len() == 0,
        index_fresh: !f.stale,
        unresolved_imports_clear: stats.total_unresolved_imports == 0,
    }
}

/// The gates of a graph with these statistics and this freshness.
pub fn gates_for(stats: &GraphStats, freshness: &IndexFreshness) -> (g: AgentGates)
    ensures
        g == gates_spec(stats, freshness),
{
    AgentGates {
        files_indexed: stats.total_files > 0,
        index_has_metadata: freshness.has_metadata,
        schema_current: !freshness.schema_mismatch,
        source_delta_clear: freshness.changed_files.len() == 0 && freshness.missing_files.len() == 0
            && freshness.new_files.len() == 0,
        index_fresh: !freshness.stale,
        unresolved_imports_clear: stats.total_unresolved_imports == 0,
    }
}

/// The graph must be rebuilt before it can be trusted.
pub open spec fn needs_refresh(g: AgentGates) -> bool {
    !g.index_fresh || !g.schema_current || !g.source_delta_clear
}

/// The action for a set of gates: stop when nothing is indexed, refresh a
/// stale map before anything else, review unresolved imports of a fresh map.
pub open spec fn action_level_spec(g: AgentGates) -> ActionLevel {
    if !g.files_indexed {
        ActionLevel::Stop
    } else if needs_refresh(g) {
        ActionLevel::Refresh
    } else if !g.unresolved_imports_clear {
        ActionLevel::Review
    } else {
        ActionLevel::NoAction
    }
}

/// The action for a set of gates.
pub fn action_level_for(gates: &AgentGates) -> (a: ActionLevel)
    ensures
        a == action_level_spec(*gates),
{
    if !gates.files_indexed {
        ActionLevel::Stop
    } else if !gates.index_fresh || !gates.schema_current || !gates.source_delta_clear {
        ActionLevel::Refresh
    } else if !gates.unresolved_imports_clear {
        ActionLevel::Review
    } else {
        ActionLevel::NoAction
    }
}

pub open spec fn status_spec(a: ActionLevel) -> DoctorStatus {
    match a {
        ActionLevel::NoAction => DoctorStatus::Ready,
        ActionLevel::Refresh => DoctorStatus::Caution,
        ActionLevel::Review | ActionLevel::Stop => DoctorStatus::Blocked,
    }
}

/// The status for an action level: ready, caution for a refresh, blocked for
/// a review or a stop.
pub fn status_for(action_level: ActionLevel) -> (s: DoctorStatus)
    ensures
        s == status_spec(action_level),
{
    match action_level {
        ActionLevel::NoAction => DoctorStatus::Ready,
        ActionLevel::Refresh => DoctorStatus::Caution,
        ActionLevel::Review | ActionLevel::Stop => DoctorStatus::Blocked,
    }
}

/// The health word: healthy when nothing is unresolved and the index is fresh.
pub open spec fn doctor_status_spec(stats: &GraphStats, f: &IndexFreshness) -> Seq<char> {
    if stats.total_unresolved_imports == 0 && !f.stale {
        "healthy"@
    } else {
        "warning"@
    }
}

/// The health word of a graph.
pub fn doctor_status(stats: &GraphStats, freshness: &IndexFreshness) -> (r: &'static str)
    ensures
        r@ == doctor_status_spec(stats, freshness),
{
    if stats.total_unresolved_imports == 0 && !freshness.stale {
        "healthy"
    } else {
        "warning"
    }
}


/// Why a refresh is needed, in a fixed order; `stale index` when no gate
/// names another reason.
pub open spec fn refresh_reasons(g: AgentGates) -> Seq<Seq<char>> {
    let r = (if !g.index_has_metadata { seq!["missing metadata"@] } else { Seq::empty() })
        + (if !g.schema_current { seq!["schema mismatch"@] } else { Seq::empty() })
        + (if !g.source_delta_clear { seq!["source files changed since scan"@] } else { Seq::empty() });
    if r.len() == 0 {
        seq!["stale index"@]
    } else {
        r
    }
}

/// The doctor's advice for an action level.
pub open spec fn advice_spec(a: ActionLevel, g: AgentGates) -> Seq<char> {
    match a {
        ActionLevel::NoAction => "graph is current and no unresolved local imports were found; Atlas results are ready for planning"@,
        ActionLevel::Refresh => "refresh the graph before making dependency or blast-radius claims ("@ + join(refresh_reasons(g), ", "@) + ")"@,
        ActionLevel::Review => "unresolved local imports may hide dependencies; inspect map gaps before relying on blast-radius output"@,
        ActionLevel::Stop => "no source files are indexed; scan the repo or verify Atlas supports the project layout before using graph results"@,
    }
}

fn push_if(v: &mut Vec<Vec<char>>, cond: bool, text: &str)
    ensures
        views(final(v)@) == views(old(v)@) + (if cond { seq![text@] } else { Seq::<Seq<char>>::empty() }),
{
    let ghost before = views(v@);
    if cond {
        v.push(chars_of(text));
        assert(views(v@) =~= before + seq![text@]);
    } else {
        assert(views(v@) =~= before + Seq::<Seq<char>>::empty());
    }
}

/// The doctor's advice for an action level.
pub fn advice_for(action_level: ActionLevel, gates: &AgentGates) -> (r: String)
    ensures
        r@ == advice_spec(action_level, *gates),
{
    match action_level {
        ActionLevel::NoAction => "graph is current and no unresolved local imports were found; Atlas results are ready for planning".to_owned(),
        ActionLevel::Refresh => {
            let mut reasons: Vec<Vec<char>> = Vec::new();
            assert(views(reasons@) =~= Seq::<Seq<char>>::empty());
            push_if(&mut reasons, !gates.index_has_metadata, "missing metadata");
            push_if(&mut reasons, !gates.schema_current, "schema mismatch");
            push_if(&mut reasons, !gates.source_delta_clear, "source files changed since scan");
            if reasons.len() == 0 {
                reasons.push(chars_of("stale index"));
            }
            assert(views(reasons@) =~= refresh_reasons(*gates));
            let joined = join_exec(&reasons, chars_of(", ").as_slice());
            let head = chars_of("refresh the graph before making dependency or blast-radius claims (");
            let all = cat(cat(head.as_slice(), joined.as_slice()).as_slice(), chars_of(")").as_slice());
            string_of(all.as_slice())
        },
        ActionLevel::Review => "unresolved local imports may hide dependencies; inspect map gaps before relying on blast-radius output".to_owned(),
        ActionLevel::Stop => "no source files are indexed; scan the repo or verify Atlas supports the project layout before using graph results".to_owned(),
    }
}

/// Whether a recommendation is a command to run or a manual step.
#[derive(Debug, Clone, Copy, PartialEq, Eq, Structural)]
pub enum RecommendationKind {
    Command,
    Manual,
}

/// A next step the doctor recommends.
pub struct RecommendedCommand {
    pub kind: RecommendationKind,
    pub command: Option<String>,
    pub argv: Option<Vec<String>>,
    pub label: String,
    pub reason: String,
    pub reason_code: String,
    pub required: bool,
}

/// The mathematical content of a `RecommendedCommand`.
#[verifier::ext_equal]
pub struct CommandModel {
    pub kind: RecommendationKind,
    pub command: Option<Seq<char>>,
    pub argv: Option<Seq<Seq<char>>>,
    pub label: Seq<char>,
    pub reason: Seq<char>,
    pub reason_code: Seq<char>,
    pub required: bool,
}

impl View for RecommendedCommand {
    type V = CommandModel;

    open spec fn view(&self) -> CommandModel {
        CommandModel {
            kind: self.kind,
            command: match &self.command {
                Some(c) => Some(c@),
                None => None,
            },
            argv: match &self.argv {
                Some(a) => Some(str_views(a@)),
                None => None,
            },
            label: self.label@,
            reason: self.reason@,
            reason_code: self.reason_code@,
            required: self.required,
        }
    }
}

pub open spec fn command_models(v: Seq<RecommendedCommand>) -> Seq<CommandModel> {
    v.map_values(|c: RecommendedCommand| c@)
}

/// A recommendation to run a command, shown as its label.
pub open spec fn command_model(label: Seq<char>, argv: Seq<Seq<char>>, reason_code: Seq<char>, reason: Seq<char>, required: bool) -> CommandModel {
    CommandModel {
        kind: RecommendationKind::Command,
        command: Some(label),
        argv: Some(argv),
        label,
        reason,
        reason_code,
        required,
    }
}

/// A recommendation of a manual step.
pub open spec fn manual_model(label: Seq<char>, reason_code: Seq<char>, reason: Seq<char>, required: bool) -> CommandModel {
    CommandModel {
        kind: RecommendationKind::Manual,
        command: None,
        argv: None,
        label,
        reason,
        reason_code,
        required,
    }
}


/// A recommendation to run a command.
pub fn command_recommendation(
    label: &str,
    argv: &[&str],
    reason_code: &str,
    reason: &str,
    required: bool,
) -> (r: RecommendedCommand)
    ensures
        r@ == command_model(label@, strs_view(argv@), reason_code@, reason@, required),
{
    let mut args: Vec<String> = Vec::new();
    let mut i: usize = 0;
    while i < argv.len()
        invariant
            i <= argv@.len(),
            str_views(args@) == strs_view(argv@).subrange(0, i as int),
        decreases argv@.len() - i,
    {
        let ghost before = str_views(args@);
        let a: String = argv[i].to_owned();
        args.push(a);
        assert(str_views(args@) =~= before.push(argv@[i as int]@));
        i = i + 1;
        assert(str_views(args@) =~= strs_view(argv@).subrange(0, i as int));
    }
    assert(strs_view(argv@).subrange(0, argv@.len() as int) =~= strs_view(argv@));
    let r = RecommendedCommand {
        kind: RecommendationKind::Command,
        command: Some(label.to_owned()),
        argv: Some(args),
        label: label.to_owned(),
        reason: reason.to_owned(),
        reason_code: reason_code.to_owned(),
        required,
    };
    assert(r@ =~= command_model(label@, strs_view(argv@), reason_code@, reason@, required));
    r
}

/// A recommendation of a manual step.
pub fn manual_recommendation(label: &str, reason_code: &str, reason: &str, required: bool) -> (r: RecommendedCommand)
    ensures
        r@ == manual_model(label@, reason_code@, reason@, required),
{
    let r = RecommendedCommand {
        kind: RecommendationKind::Manual,
        command: None,
        argv: None,
        label: label.to_owned(),
        reason: reason.to_owned(),
        reason_code: reason_code.to_owned(),
        required,
    };
    assert(r@ =~= manual_model(label@, reason_code@, reason@, required));
    r
}

/// `required: label (code)` or `optional: label (code)`.
pub open spec fn recommendation_label_spec(c: CommandModel) -> Seq<char> {
    (if c.required { "required: "@ } else { "optional: "@ }) + c.label + " ("@ + c.reason_code + ")"@
}

/// A recommendation as one line.
pub fn recommendation_label(command: &RecommendedCommand) -> (r: String)
    ensures
        r@ == recommendation_label_spec(command@),
{
    let head = if command.required { chars_of("required: ") } else { chars_of("optional: ") };
    let label = chars_of(command.label.as_str());
    let code = chars_of(command.reason_code.as_str());
    let a = cat(head.as_slice(), label.as_slice());
    let b = cat(a.as_slice(), chars_of(" (").as_slice());
    let c = cat(b.as_slice(), code.as_slice());
    let d = cat(c.as_slice(), chars_of(")").as_slice());
    string_of(d.as_slice())
}

/// A local import of a file that resolved to nothing, or an external import.
pub struct ImportProblem {
    pub file: String,
    pub import: String,
}

/// The recommendations for an action level and set of gates, given the
/// file of the first unresolved import if there is one.
pub open spec fn recommended_spec(a: ActionLevel, g: AgentGates, first_file: Option<Seq<char>>) -> Seq<CommandModel> {
    if !g.files_indexed {
        seq![
            command_model("atlas scan --force"@, seq!["atlas"@, "scan"@, "--force"@], "no_files_indexed"@, "doctor found zero indexed source files"@, true),
            manual_model("Verify Atlas supports this project layout if scan still indexes zero files"@, "unsupported_project_layout"@, "zero indexed files may mean no supported source extensions were found"@, true),
        ]
    } else {
        let refresh = if needs_refresh(g) {
            seq![command_model("atlas scan --force"@, seq!["atlas"@, "scan"@, "--force"@], "index_not_fresh"@, "index metadata, schema, or source fingerprints are not current"@, true)]
        } else {
            Seq::empty()
        };
        let file = match first_file {
            Some(f) => f,
            None => "<file>"@,
        };
        let review = if !g.unresolved_imports_clear {
            seq![
                manual_model("Inspect unresolved local imports before trusting blast-radius output"@, "unresolved_local_imports"@, "Atlas found local-looking imports that did not resolve to indexed files"@, a != ActionLevel::Refresh),
                command_model("atlas deps "@ + file, seq!["atlas"@, "deps"@, file], "inspect_first_unresolved_file"@, "one unresolved file is enough to make graph impact incomplete"@, false),
            ]
        } else {
            Seq::empty()
        };
        if refresh.len() + review.len() == 0 {
            seq![
                manual_model("Use atlas impact <file> before editing the target file"@, "normal_graph_workflow"@, "graph is current and no unresolved local imports were found"@, false),
                command_model("atlas hotspots --limit 20"@, seq!["atlas"@, "hotspots"@, "--limit"@, "20"@], "review_hotspots"@, "hotspots highlight files with broad downstream impact"@, false),
            ]
        } else {
            refresh + review
        }
    }
}

pub open spec fn first_file_of(unresolved: Seq<ImportProblem>) -> Option<Seq<char>> {
    if unresolved.len() > 0 {
        Some(unresolved[0].file@)
    } else {
        None
    }
}

/// The recommended next steps.
pub fn recommended_commands_for(
    action_level: ActionLevel,
    gates: &AgentGates,
    unresolved: &[ImportProblem],
) -> (r: Vec<RecommendedCommand>)
    ensures
        command_models(r@) == recommended_spec(action_level, *gates, first_file_of(unresolved@)),
{
    let mut commands: Vec<RecommendedCommand> = Vec::new();
    let scan_argv: [&str; 3] = ["atlas", "scan", "--force"];
    assert(strs_view(scan_argv@) =~= seq!["atlas"@, "scan"@, "--force"@]);
    if !gates.files_indexed {
        commands.push(command_recommendation(
            "atlas scan --force",
            &scan_argv,
            "no_files_indexed",
            "doctor found zero indexed source files",
            true,
        ));
        commands.push(manual_recommendation(
            "Verify Atlas supports this project layout if scan still indexes zero files",
            "unsupported_project_layout",
            "zero indexed files may mean no supported source extensions were found",
            true,
        ));
        assert(command_models(commands@) =~= recommended_spec(action_level, *gates, first_file_of(unresolved@)));
        return commands;
    }
    let ghost g = *gates;
    if !gates.index_fresh || !gates.schema_current || !gates.source_delta_clear {
        commands.push(command_recommendation(
            "atlas scan --force",
            &scan_argv,
            "index_not_fresh",
            "index metadata, schema, or source fingerprints are not current",
            true,
        ));
    }
    let ghost refresh = command_models(commands@);
    if !gates.unresolved_imports_clear {
        let first_file: &str = if unresolved.len() > 0 {
            unresolved[0].file.as_str()
        } else {
            "<file>"
        };
        commands.push(manual_recommendation(
            "Inspect unresolved local imports before trusting blast-radius output",
            "unresolved_local_imports",
            "Atlas found local-looking imports that did not resolve to indexed files",
            action_level != ActionLevel::Refresh,
        ));
        let label = cat(chars_of("atlas deps ").as_slice(), chars_of(first_file).as_slice());
        let label_s = string_of(label.as_slice());
        let deps_argv: [&str; 3] = ["atlas", "deps", first_file];
        assert(strs_view(deps_argv@) =~= seq!["atlas"@, "deps"@, first_file@]);
        commands.push(command_recommendation(
            label_s.as_str(),
            &deps_argv,
            "inspect_first_unresolved_file",
            "one unresolved file is enough to make graph impact incomplete",
            false,
        ));
    }
    if commands.len() == 0 {
        commands.push(manual_recommendation(
            "Use atlas impact <file> before editing the target file",
            "normal_graph_workflow",
            "graph is current and no unresolved local imports were found",
            false,
        ));
        let hot_argv: [&str; 4] = ["atlas", "hotspots", "--limit", "20"];
        assert(strs_view(hot_argv@) =~= seq!["atlas"@, "hotspots"@, "--limit"@, "20"@]);
        commands.push(command_recommendation(
            "atlas hotspots --limit 20",
            &hot_argv,
            "review_hotspots",
            "hotspots highlight files with broad downstream impact",
            false,
        ));
    }
    assert(command_models(commands@) =~= recommended_spec(action_level, *gates, first_file_of(unresolved@)));
    commands
}


/// At most the first `limit` elements of `s` (`Vec::truncate`).
pub open spec fn truncated<A>(s: Seq<A>, limit: nat) -> Seq<A> {
    if limit < s.len() {
        s.take(limit as int)
    } else {
        s
    }
}

pub open spec fn problem_views(v: Seq<ImportProblem>) -> Seq<(Seq<char>, Seq<char>)> {
    v.map_values(|p: ImportProblem| (p.file@, p.import@))
}

/// A node's unresolved (or external) imports, each with the node's path.
pub open spec fn node_problems(n: FileNodeModel, external: bool) -> Seq<(Seq<char>, Seq<char>)> {
    (if external { n.external_imports } else { n.unresolved_imports }).map_values(|i: Seq<char>| (n.path, i))
}

/// The problems of all nodes, node after node.
pub open spec fn all_problems(ns: Seq<FileNodeModel>, external: bool) -> Seq<(Seq<char>, Seq<char>)>
    decreases ns.len(),
{
    if ns.len() == 0 {
        Seq::empty()
    } else {
        all_problems(ns.drop_last(), external) + node_problems(ns.last(), external)
    }
}

fn problem_entries(graph: &CodeGraph, limit: usize, external: bool) -> (r: Vec<ImportProblem>)
    ensures
        problem_views(r@) == truncated(all_problems(graph.node_views(), external), limit as nat),
{
    let ghost ns = graph.node_views();
    let mut entries: Vec<ImportProblem> = Vec::new();
    let mut i: usize = 0;
    assert(problem_views(entries@) =~= all_problems(ns.subrange(0, 0), external));
    while i < graph.nodes.len()
        invariant
            ns == graph.node_views(),
            i <= ns.len(),
            problem_views(entries@) == all_problems(ns.subrange(0, i as int), external),
        decreases ns.len() - i,
    {
        let node = &graph.nodes[i];
        let list = if external { &node.external_imports } else { &node.unresolved_imports };
        let ghost start = problem_views(entries@);
        let ghost lv = str_views(list@);
        assert(lv == (if external { ns[i as int].external_imports } else { ns[i as int].unresolved_imports }));
        let mut j: usize = 0;
        while j < list.len()
            invariant
                j <= lv.len(),
                lv == str_views(list@),
                node.path@ == ns[i as int].path,
                problem_views(entries@) == start + lv.subrange(0, j as int).map_values(|x: Seq<char>| (ns[i as int].path, x)),
            decreases lv.len() - j,
        {
            let ghost before = problem_views(entries@);
            entries.push(ImportProblem { file: node.path.clone(), import: list[j].clone() });
            assert(problem_views(entries@) =~= before.push((ns[i as int].path, lv[j as int])));
            j = j + 1;
            assert(problem_views(entries@) =~= start + lv.subrange(0, j as int).map_values(|x: Seq<char>| (ns[i as int].path, x)));
        }
        let ghost sub = ns.subrange(0, i + 1);
        assert(sub.drop_last() =~= ns.subrange(0, i as int));
        assert(sub.last() == ns[i as int]);
        assert(lv.subrange(0, lv.len() as int) =~= lv);
        assert(problem_views(entries@) =~= all_problems(sub, external));
        i = i + 1;
    }
    assert(ns.subrange(0, ns.len() as int) =~= ns);
    let ghost full = entries@;
    entries.truncate(limit);
    assert(problem_views(entries@) =~= truncated(problem_views(full), limit as nat));
    entries
}

/// The first `limit` unresolved local imports, by file path, then in the
/// order each file lists them.
pub fn unresolved_entries(graph: &CodeGraph, limit: usize) -> (r: Vec<ImportProblem>)
    ensures
        problem_views(r@) == truncated(all_problems(graph.node_views(), false), limit as nat),
{
    problem_entries(graph, limit, false)
}

/// The first `limit` external imports, by file path, then in the order each
/// file lists them.
pub fn external_entries(graph: &CodeGraph, limit: usize) -> (r: Vec<ImportProblem>)
    ensures
        problem_views(r@) == truncated(all_problems(graph.node_views(), true), limit as nat),
{
    problem_entries(graph, limit, true)
}

/// A file with no dependencies that nothing depends on.
pub open spec fn is_isolated(rd: Seq<RdepsEntry>, n: FileNodeModel) -> bool {
    n.deps.len() == 0 && lookup_rdeps(rd, n.path).len() == 0
}

/// The paths of the isolated files among `ns`, in order.
pub open spec fn isolated_paths(rd: Seq<RdepsEntry>, ns: Seq<FileNodeModel>) -> Seq<Seq<char>>
    decreases ns.len(),
{
    if ns.len() == 0 {
        Seq::empty()
    } else {
        isolated_paths(rd, ns.drop_last()) + if is_isolated(rd, ns.last()) {
            seq![ns.last().path]
        } else {
            Seq::empty()
        }
    }
}

/// The first `limit` isolated files, in increasing order of path.
pub fn isolated_files(graph: &CodeGraph, limit: usize) -> (r: Vec<String>)
    ensures
        str_views(r@) == truncated(isolated_paths(graph.rdeps@, graph.node_views()), limit as nat),
{
    let ghost ns = graph.node_views();
    let ghost rd = graph.rdeps@;
    let mut files: Vec<String> = Vec::new();
    let mut i: usize = 0;
    assert(str_views(files@) =~= isolated_paths(rd, ns.subrange(0, 0)));
    while i < graph.nodes.len()
        invariant
            ns == graph.node_views(),
            rd == graph.rdeps@,
            i <= ns.len(),
            str_views(files@) == isolated_paths(rd, ns.subrange(0, i as int)),
        decreases ns.len() - i,
    {
        let node = &graph.nodes[i];
        let ghost sub = ns.subrange(0, i + 1);
        assert(sub.drop_last() =~= ns.subrange(0, i as int));
        assert(sub.last() == ns[i as int]);
        let ghost before = str_views(files@);
        if node.deps.len() == 0 && graph.rdeps_of(node.path.as_str()).len() == 0 {
            files.push(node.path.clone());
            assert(str_views(files@) =~= before + seq![ns[i as int].path]);
        } else {
            assert(str_views(files@) =~= before + Seq::<Seq<char>>::empty());
        }
        i = i + 1;
    }
    assert(ns.subrange(0, ns.len() as int) =~= ns);
    let ghost full = files@;
    files.truncate(limit);
    assert(str_views(files@) =~= truncated(str_views(full), limit as nat));
    files
}


/// A file with high fan-in or a wide blast radius.
pub struct HotspotEntry {
    pub path: String,
    pub language: String,
    pub lines: usize,
    pub deps_count: usize,
    pub rdeps_count: usize,
    pub blast_radius_count: usize,
    pub unresolved_imports_count: usize,
}

/// The mathematical content of a `HotspotEntry`.
#[verifier::ext_equal]
pub struct HotspotModel {
    pub path: Seq<char>,
    pub language: Seq<char>,
    pub lines: nat,
    pub deps_count: nat,
    pub rdeps_count: nat,
    pub blast_radius_count: nat,
    pub unresolved_imports_count: nat,
}

impl View for HotspotEntry {
    type V = HotspotModel;

    open spec fn view(&self) -> HotspotModel {
        HotspotModel {
            path: self.path@,
            language: self.language@,
            lines: self.lines as nat,
            deps_count: self.deps_count as nat,
            rdeps_count: self.rdeps_count as nat,
            blast_radius_count: self.blast_radius_count as nat,
            unresolved_imports_count: self.unresolved_imports_count as nat,
        }
    }
}

pub open spec fn hotspot_views(v: Seq<HotspotEntry>) -> Seq<HotspotModel> {
    v.map_values(|h: HotspotEntry| h@)
}

/// The hotspot figures of a node (blast radius to depth 5).
pub open spec fn hotspot_of(rd: Seq<RdepsEntry>, n: FileNodeModel) -> HotspotModel {
    HotspotModel {
        path: n.path,
        language: language_label(n.language),
        lines: n.lines,
        deps_count: n.deps.len(),
        rdeps_count: lookup_rdeps(rd, n.path).len(),
        blast_radius_count: blast_set(rd, n.path, 5).len(),
        unresolved_imports_count: n.unresolved_imports.len(),
    }
}

/// Something depends on the file, directly or not.
pub open spec fn is_hotspot(h: HotspotModel) -> bool {
    h.rdeps_count > 0 || h.blast_radius_count > 0
}

/// Hotspots order: more dependents first, then wider blast radius, then more
/// dependencies, then by path.
pub open spec fn hot_before(a: HotspotModel, b: HotspotModel) -> bool {
    ||| a.rdeps_count > b.rdeps_count
    ||| (a.rdeps_count == b.rdeps_count && a.blast_radius_count > b.blast_radius_count)
    ||| (a.rdeps_count == b.rdeps_count && a.blast_radius_count == b.blast_radius_count && a.deps_count > b.deps_count)
    ||| (a.rdeps_count == b.rdeps_count && a.blast_radius_count == b.blast_radius_count && a.deps_count == b.deps_count
        && seq_lt(a.path, b.path))
}

pub open spec fn hot_sorted(s: Seq<HotspotModel>) -> bool {
    forall|i: int, j: int| 0 <= i < j < s.len() ==> hot_before(s[i], s[j])
}

/// The hotspots of the first `k` nodes.
pub open spec fn hot_candidates(rd: Seq<RdepsEntry>, ns: Seq<FileNodeModel>, k: int) -> Set<HotspotModel> {
    Set::new(|h: HotspotModel| exists|j: int| 0 <= j < k && h == #[trigger] hotspot_of(rd, ns[j]) && is_hotspot(h))
}

/// `r` lists, in hotspot order, the first `limit` hotspots of the nodes `ns`:
/// each of its entries is a hotspot, and a hotspot it leaves out comes after
/// all `limit` of them.
pub open spec fn top_hotspots(rd: Seq<RdepsEntry>, ns: Seq<FileNodeModel>, limit: nat, r: Seq<HotspotEntry>) -> bool {
    &&& hot_sorted(hotspot_views(r))
    &&& r.len() <= limit
    &&& forall|i: int| 0 <= i < r.len() ==> hot_candidates(rd, ns, ns.len() as int).contains(#[trigger] r[i]@)
    &&& forall|h: HotspotModel| #[trigger] hot_candidates(rd, ns, ns.len() as int).contains(h) ==> (
        hotspot_views(r).contains(h) || (r.len() == limit && forall|i: int| 0 <= i < r.len() ==> hot_before(#[trigger] r[i]@, h)))
}

proof fn lemma_hot_transitive(a: HotspotModel, b: HotspotModel, c: HotspotModel)
    requires
        hot_before(a, b),
        hot_before(b, c),
    ensures
        hot_before(a, c),
{
    if a.rdeps_count == b.rdeps_count && b.rdeps_count == c.rdeps_count && a.blast_radius_count == b.blast_radius_count
        && b.blast_radius_count == c.blast_radius_count && a.deps_count == b.deps_count && b.deps_count == c.deps_count {
        lemma_lt_transitive(a.path, b.path, c.path);
    }
}

proof fn lemma_hot_total(a: HotspotModel, b: HotspotModel)
    requires
        a.path != b.path,
    ensures
        hot_before(a, b) || hot_before(b, a),
{
    lemma_lt_total(a.path, b.path);
}

fn hot_lt(a: &HotspotEntry, b: &HotspotEntry) -> (r: bool)
    ensures
        r == hot_before(a@, b@),
{
    if a.rdeps_count != b.rdeps_count {
        return a.rdeps_count > b.rdeps_count;
    }
    if a.blast_radius_count != b.blast_radius_count {
        return a.blast_radius_count > b.blast_radius_count;
    }
    if a.deps_count != b.deps_count {
        return a.deps_count > b.deps_count;
    }
    str_lt(a.path.as_str(), b.path.as_str())
}

fn insert_hotspot(v: &mut Vec<HotspotEntry>, e: HotspotEntry) -> (pos: usize)
    requires
        hot_sorted(hotspot_views(old(v)@)),
        forall|i: int| 0 <= i < old(v)@.len() ==> old(v)@[i].path@ != e.path@,
    ensures
        pos <= old(v)@.len(),
        hotspot_views(final(v)@) == hotspot_views(old(v)@).insert(pos as int, e@),
        hot_sorted(hotspot_views(final(v)@)),
{
    let ghost ov = hotspot_views(v@);
    let mut i: usize = 0;
    while i < v.len() && hot_lt(&v[i], &e)
        invariant
            i <= v@.len(),
            ov == hotspot_views(v@),
            forall|j: int| 0 <= j < i ==> hot_before(ov[j], e@),
        decreases v@.len() - i,
    {
        i = i + 1;
    }
    proof {
        if i < ov.len() {
            assert(ov[i as int].path != e@.path);
            lemma_hot_total(ov[i as int], e@);
        }
    }
    let ghost ev = e@;
    v.insert(i, e);
    let ghost nv = hotspot_views(v@);
    assert(nv =~= ov.insert(i as int, ev));
    assert forall|a: int, b: int| 0 <= a < b < nv.len() implies hot_before(nv[a], nv[b]) by {
        let ia = i as int;
        if a < ia && b == ia {
        } else if a < ia && b > ia {
            if b - 1 > ia {
                assert(hot_before(ov[ia], ov[b - 1]));
                lemma_hot_transitive(ev, ov[ia], ov[b - 1]);
            }
            lemma_hot_transitive(ov[a], ev, ov[b - 1]);
        } else if a == ia && b > ia {
            if b - 1 > ia {
                assert(hot_before(ov[ia], ov[b - 1]));
                lemma_hot_transitive(ev, ov[ia], ov[b - 1]);
            }
        } else if a > ia {
            assert(nv[a] == ov[a - 1]);
            assert(nv[b] == ov[b - 1]);
        } else {
            assert(nv[a] == ov[a]);
            assert(nv[b] == ov[b]);
        }
    }
    i
}

/// The first `limit` hotspots in hotspot order: the files that something
/// depends on, directly or transitively.
pub fn hotspot_entries(graph: &CodeGraph, limit: usize) -> (r: Vec<HotspotEntry>)
    requires
        graph.wf(),
    ensures
        top_hotspots(graph.rdeps@, graph.node_views(), limit as nat, r@),
{
    let ghost ns = graph.node_views();
    let ghost rd = graph.rdeps@;
    let mut full: Vec<HotspotEntry> = Vec::new();
    let mut i: usize = 0;
    proof {
        crate::graph::lemma_sorted_no_duplicates(graph.paths());
    }
    while i < graph.nodes.len()
        invariant
            ns == graph.node_views(),
            rd == graph.rdeps@,
            i <= ns.len(),
            graph.paths().no_duplicates(),
            hot_sorted(hotspot_views(full@)),
            forall|h: HotspotModel| #[trigger] hotspot_views(full@).contains(h) <==> hot_candidates(rd, ns, i as int).contains(h),
        decreases ns.len() - i,
    {
        let node = &graph.nodes[i];
        let ghost n = ns[i as int];
        assert(n == node@);
        let rdeps_count = graph.rdeps_of(node.path.as_str()).len();
        let blast_radius_count = graph.blast_radius(node.path.as_str(), 5).len();
        let language = node.language.label().to_owned();
        let e = HotspotEntry {
            path: node.path.clone(),
            language,
            lines: node.lines,
            deps_count: node.deps.len(),
            rdeps_count,
            blast_radius_count,
            unresolved_imports_count: node.unresolved_imports.len(),
        };
        assert(e@ =~= hotspot_of(rd, n));
        let ghost before = hotspot_views(full@);
        if rdeps_count > 0 || blast_radius_count > 0 {
            assert forall|a: int| 0 <= a < full@.len() implies full@[a].path@ != e.path@ by {
                assert(before[a] == full@[a]@);
                assert(before.contains(before[a]));
                assert(hot_candidates(rd, ns, i as int).contains(before[a]));
                let j = choose|j: int| 0 <= j < i && before[a] == #[trigger] hotspot_of(rd, ns[j]) && is_hotspot(before[a]);
                assert(graph.paths()[j] == ns[j].path);
                assert(graph.paths()[i as int] == n.path);
            }
            let pos = insert_hotspot(&mut full, e);
            proof {
                assert forall|h: HotspotModel| #[trigger] hotspot_views(full@).contains(h) <==> hot_candidates(rd, ns, i + 1).contains(h) by {
                    if hotspot_views(full@).contains(h) {
                        let t = choose|t: int| 0 <= t < hotspot_views(full@).len() && hotspot_views(full@)[t] == h;
                        if t < pos {
                            assert(before[t] == h);
                            assert(before.contains(h));
                        } else if t > pos {
                            assert(before[t - 1] == h);
                            assert(before.contains(h));
                        } else {
                            assert(h == hotspot_of(rd, ns[i as int]));
                        }
                    }
                    if hot_candidates(rd, ns, i + 1).contains(h) {
                        let j = choose|j: int| 0 <= j < i + 1 && h == #[trigger] hotspot_of(rd, ns[j]) && is_hotspot(h);
                        if j < i {
                            assert(hot_candidates(rd, ns, i as int).contains(h));
                            assert(before.contains(h));
                            let t = choose|t: int| 0 <= t < before.len() && before[t] == h;
                            if t < pos {
                                assert(hotspot_views(full@)[t] == h);
                            } else {
                                assert(hotspot_views(full@)[t + 1] == h);
                            }
                        } else {
                            assert(hotspot_views(full@)[pos as int] == h);
                        }
                    }
                }
            }
        } else {
            proof {
                assert forall|h: HotspotModel| #[trigger] hotspot_views(full@).contains(h) <==> hot_candidates(rd, ns, i + 1).contains(h) by {
                    if hot_candidates(rd, ns, i + 1).contains(h) {
                        let j = choose|j: int| 0 <= j < i + 1 && h == #[trigger] hotspot_of(rd, ns[j]) && is_hotspot(h);
                        if j < i {
                            assert(hot_candidates(rd, ns, i as int).contains(h));
                        }
                    }
                    if hotspot_views(full@).contains(h) {
                        assert(hot_candidates(rd, ns, i as int).contains(h));
                    }
                }
            }
        }
        i = i + 1;
    }
    let ghost fv = hotspot_views(full@);
    full.truncate(limit);
    proof {
        let rv = hotspot_views(full@);
        assert(rv =~= truncated(fv, limit as nat));
        assert forall|h: HotspotModel| #[trigger] hot_candidates(rd, ns, ns.len() as int).contains(h) implies (
            rv.contains(h) || (full@.len() == limit && forall|a: int| 0 <= a < full@.len() ==> hot_before(#[trigger] full@[a]@, h))) by {
            assert(fv.contains(h));
            let t = choose|t: int| 0 <= t < fv.len() && fv[t] == h;
            if t < rv.len() {
                assert(rv[t] == h);
            } else {
                assert forall|a: int| 0 <= a < full@.len() implies hot_before(#[trigger] full@[a]@, h) by {
                    assert(rv[a] == fv[a]);
                }
            }
        }
        assert forall|a: int| 0 <= a < full@.len() implies hot_candidates(rd, ns, ns.len() as int).contains(#[trigger] full@[a]@) by {
            assert(rv[a] == fv[a]);
            assert(fv.contains(fv[a]));
        }
    }
    full
}


// ---------------------------------------------------------------------------
// Exported symbols
// ---------------------------------------------------------------------------

/// The lower-case form of a string, as `str::to_lowercase` maps it.
pub uninterp spec fn lowercase(s: Seq<char>) -> Seq<char>;

/// `str::to_lowercase`. Its result is a function of `s` alone (the Unicode
/// lower-case mapping); which characters it yields is not stated here.
#[verifier::external_body]
fn to_lower(s: &str) -> (r: String)
    ensures
        r@ == lowercase(s@),
{
    s.to_lowercase()
}

/// An exported symbol with the file that exports it.
pub struct SymbolEntry {
    pub symbol: String,
    pub path: String,
    pub language: String,
}

impl View for SymbolEntry {
    type V = (Seq<char>, Seq<char>, Seq<char>);

    open spec fn view(&self) -> (Seq<char>, Seq<char>, Seq<char>) {
        (self.symbol@, self.path@, self.language@)
    }
}

pub open spec fn symbol_views(v: Seq<SymbolEntry>) -> Seq<(Seq<char>, Seq<char>, Seq<char>)> {
    v.map_values(|e: SymbolEntry| e@)
}

pub open spec fn query_view(query: Option<&str>) -> Option<Seq<char>> {
    match query {
        Some(q) => Some(q@),
        None => None,
    }
}

/// No query matches every symbol; a query matches a symbol whose name or
/// file path contains it, ignoring case.
pub open spec fn symbol_matches(query: Option<Seq<char>>, symbol: Seq<char>, path: Seq<char>) -> bool {
    match query {
        None => true,
        Some(q) => contains_seq(lowercase(symbol), lowercase(q)) || contains_seq(lowercase(path), lowercase(q)),
    }
}

/// The matching exports of one file, in the order the file lists them.
pub open spec fn matching_exports(
    exports: Seq<Seq<char>>,
    path: Seq<char>,
    language: Seq<char>,
    query: Option<Seq<char>>,
) -> Seq<(Seq<char>, Seq<char>, Seq<char>)>
    decreases exports.len(),
{
    if exports.len() == 0 {
        Seq::empty()
    } else {
        matching_exports(exports.drop_last(), path, language, query) + if symbol_matches(
            query,
            exports.last(),
            path,
        ) {
            seq![(exports.last(), path, language)]
        } else {
            Seq::empty()
        }
    }
}

/// The matching exports of all files, file after file.
pub open spec fn all_symbols(ns: Seq<FileNodeModel>, query: Option<Seq<char>>) -> Seq<(Seq<char>, Seq<char>, Seq<char>)>
    decreases ns.len(),
{
    if ns.len() == 0 {
        Seq::empty()
    } else {
        all_symbols(ns.drop_last(), query) + matching_exports(
            ns.last().exports,
            ns.last().path,
            language_label(ns.last().language),
            query,
        )
    }
}

/// The first `limit` exported symbols that match the query, by file path,
/// then in the order each file lists them.
pub fn symbol_entries(graph: &CodeGraph, query: Option<&str>, limit: usize) -> (r: Vec<SymbolEntry>)
    ensures
        symbol_views(r@) == truncated(all_symbols(graph.node_views(), query_view(query)), limit as nat),
{
    let ghost ns = graph.node_views();
    let ghost qv = query_view(query);
    let needle: Option<Vec<char>> = match query {
        Some(q) => Some(chars_of(to_lower(q).as_str())),
        None => None,
    };
    let mut entries: Vec<SymbolEntry> = Vec::new();
    let mut i: usize = 0;
    assert(symbol_views(entries@) =~= all_symbols(ns.subrange(0, 0), qv));
    while i < graph.nodes.len()
        invariant
            ns == graph.node_views(),
            qv == query_view(query),
            i <= ns.len(),
            match needle {
                Some(nd) => qv is Some && nd@ == lowercase(qv->0),
                None => qv is None,
            },
            symbol_views(entries@) == all_symbols(ns.subrange(0, i as int), qv),
        decreases ns.len() - i,
    {
        let node = &graph.nodes[i];
        let ghost n = ns[i as int];
        assert(n == node@);
        let ghost lang = language_label(n.language);
        let ghost start = symbol_views(entries@);
        let ghost ex = n.exports;
        let mut j: usize = 0;
        assert(matching_exports(ex.subrange(0, 0), n.path, lang, qv) =~= Seq::empty());
        assert(symbol_views(entries@) =~= start + matching_exports(ex.subrange(0, 0), n.path, lang, qv));
        while j < node.exports.len()
            invariant
                n == node@,
                ex == n.exports,
                lang == language_label(n.language),
                j <= ex.len(),
                match needle {
                    Some(nd) => qv is Some && nd@ == lowercase(qv->0),
                    None => qv is None,
                },
                symbol_views(entries@) == start + matching_exports(ex.subrange(0, j as int), n.path, lang, qv),
            decreases ex.len() - j,
        {
            let symbol = &node.exports[j];
            assert(symbol@ == ex[j as int]);
            let matched = match &needle {
                None => true,
                Some(nd) => {
                    let ls = chars_of(to_lower(symbol.as_str()).as_str());
                    if contains_exec(ls.as_slice(), nd.as_slice()) {
                        true
                    } else {
                        let lp = chars_of(to_lower(node.path.as_str()).as_str());
                        contains_exec(lp.as_slice(), nd.as_slice())
                    }
                },
            };
            assert(matched == symbol_matches(qv, ex[j as int], n.path));
            let ghost sub = ex.subrange(0, j + 1);
            assert(sub.drop_last() =~= ex.subrange(0, j as int));
            assert(sub.last() == ex[j as int]);
            let ghost before = symbol_views(entries@);
            if matched {
                let e = SymbolEntry {
                    symbol: symbol.clone(),
                    path: node.path.clone(),
                    language: node.language.label().to_owned(),
                };
                entries.push(e);
                assert(symbol_views(entries@) =~= before + seq![(ex[j as int], n.path, lang)]);
            } else {
                assert(symbol_views(entries@) =~= before + Seq::<(Seq<char>, Seq<char>, Seq<char>)>::empty());
            }
            j = j + 1;
            assert(symbol_views(entries@) =~= start + matching_exports(ex.subrange(0, j as int), n.path, lang, qv));
        }
        assert(ex.subrange(0, ex.len() as int) =~= ex);
        let ghost nsub = ns.subrange(0, i + 1);
        assert(nsub.drop_last() =~= ns.subrange(0, i as int));
        assert(nsub.last() == n);
        assert(symbol_views(entries@) =~= all_symbols(nsub, qv));
        i = i + 1;
    }
    assert(ns.subrange(0, ns.len() as int) =~= ns);
    let ghost full = entries@;
    entries.truncate(limit);
    assert(symbol_views(entries@) =~= truncated(symbol_views(full), limit as nat));
    entries
}


// ---------------------------------------------------------------------------
// Blast-radius hints
// ---------------------------------------------------------------------------

/// The last two segments of a slash-separated path, or the whole path when it
/// has at most two.
pub open spec fn short_path_spec(p: Seq<char>) -> Seq<char> {
    let k = last_index_of(p, '/');
    let k2 = last_index_before(p, '/', k);
    if k < 0 || k2 < 0 {
        p
    } else {
        p.subrange(k2 + 1, p.len() as int)
    }
}

/// Shortens a path for display to its last two segments.
pub fn short_path(path: &str) -> (r: &str)
    ensures
        r@ == short_path_spec(path@),
{
    let cs = chars_of(path);
    proof {
        lemma_last_index_before(path@, '/', path@.len() as int);
    }
    match last_index_of_exec(cs.as_slice(), '/') {
        None => path,
        Some(k) => {
            let mut n: usize = k;
            while n > 0
                invariant
                    n <= k < cs@.len(),
                    cs@ == path@,
                    k == last_index_of(path@, '/'),
                    last_index_before(path@, '/', k as int) == last_index_before(path@, '/', n as int),
                decreases n,
            {
                if cs[n - 1] == '/' {
                    assert(last_index_before(path@, '/', n as int) == n - 1);
                    return path.substring_char(n, cs.len());
                }
                n = n - 1;
            }
            path
        },
    }
}

/// A direct dependent whose own dependents are many.
pub open spec fn is_high_risk(e: BlastEntry) -> bool {
    e.depth == 1 && e.fan_out > 3
}

/// The number of direct dependents (depth 1) in a blast radius.
pub open spec fn direct_count(b: Seq<BlastEntry>) -> nat
    decreases b.len(),
{
    if b.len() == 0 {
        0
    } else {
        direct_count(b.drop_last()) + if b.last().depth == 1 { 1nat } else { 0nat }
    }
}

/// The paths of the high-risk entries, in order.
pub open spec fn high_risk_spec(b: Seq<BlastEntry>) -> Seq<Seq<char>>
    decreases b.len(),
{
    if b.len() == 0 {
        Seq::empty()
    } else {
        high_risk_spec(b.drop_last()) + if is_high_risk(b.last()) {
            seq![b.last().path@]
        } else {
            Seq::empty()
        }
    }
}

/// The greatest depth in a blast radius, 0 when it is empty.
pub open spec fn max_depth(b: Seq<BlastEntry>) -> nat
    decreases b.len(),
{
    if b.len() == 0 {
        0
    } else {
        let m = max_depth(b.drop_last());
        if b.last().depth > m {
            b.last().depth as nat
        } else {
            m
        }
    }
}

/// The next-step hints for a change to `file` with this blast radius.
pub open spec fn blast_hints_spec(file: Seq<char>, b: Seq<BlastEntry>) -> Seq<Seq<char>> {
    if b.len() == 0 {
        Seq::empty()
    } else {
        let high = high_risk_spec(b).len();
        let direct = direct_count(b);
        let md = max_depth(b);
        (if high > 0 {
            seq![
                "Review "@ + decimal(high) + " high-risk direct dependent(s) first — changes there cascade further"@,
            ]
        } else {
            Seq::empty()
        }) + seq![
            if direct <= 5 {
                "Run tests covering "@ + short_path_spec(file) + " and its "@ + decimal(direct)
                    + " direct dependent(s)"@
            } else {
                "Run full test suite — "@ + decimal(direct) + " direct dependents is broad impact"@
            },
        ] + (if md >= 3 {
            seq![
                "Cascade reaches depth "@ + decimal(md)
                    + " — consider whether the API boundary at depth 1 can absorb this change"@,
            ]
        } else {
            Seq::empty()
        })
    }
}

/// The number of direct dependents (depth 1) in a blast radius.
pub fn direct_dependents(blast: &[BlastEntry]) -> (r: usize)
    ensures
        r == direct_count(blast@),
        r <= blast@.len(),
{
    let mut count: usize = 0;
    let mut i: usize = 0;
    while i < blast.len()
        invariant
            i <= blast@.len(),
            count == direct_count(blast@.subrange(0, i as int)),
            count <= i,
        decreases blast@.len() - i,
    {
        let ghost sub = blast@.subrange(0, i + 1);
        assert(sub.drop_last() =~= blast@.subrange(0, i as int));
        if blast[i].depth == 1 {
            count = count + 1;
        }
        i = i + 1;
    }
    assert(blast@.subrange(0, blast@.len() as int) =~= blast@);
    count
}

/// The paths of the direct dependents with more than three dependents of
/// their own, in blast order.
pub fn high_risk_paths(blast: &[BlastEntry]) -> (r: Vec<String>)
    ensures
        str_views(r@) == high_risk_spec(blast@),
{
    let mut r: Vec<String> = Vec::new();
    let mut i: usize = 0;
    assert(str_views(r@) =~= high_risk_spec(blast@.subrange(0, 0)));
    while i < blast.len()
        invariant
            i <= blast@.len(),
            str_views(r@) == high_risk_spec(blast@.subrange(0, i as int)),
        decreases blast@.len() - i,
    {
        let ghost sub = blast@.subrange(0, i + 1);
        assert(sub.drop_last() =~= blast@.subrange(0, i as int));
        let ghost before = str_views(r@);
        if blast[i].depth == 1 && blast[i].fan_out > 3 {
            r.push(blast[i].path.clone());
            assert(str_views(r@) =~= before + seq![blast@[i as int].path@]);
        } else {
            assert(str_views(r@) =~= before + Seq::<Seq<char>>::empty());
        }
        i = i + 1;
    }
    assert(blast@.subrange(0, blast@.len() as int) =~= blast@);
    r
}

/// The greatest depth in a blast radius, 0 when it is empty.
pub fn deepest(blast: &[BlastEntry]) -> (r: usize)
    ensures
        r == max_depth(blast@),
{
    let mut m: usize = 0;
    let mut i: usize = 0;
    while i < blast.len()
        invariant
            i <= blast@.len(),
            m == max_depth(blast@.subrange(0, i as int)),
        decreases blast@.len() - i,
    {
        let ghost sub = blast@.subrange(0, i + 1);
        assert(sub.drop_last() =~= blast@.subrange(0, i as int));
        if blast[i].depth > m {
            m = blast[i].depth;
        }
        i = i + 1;
    }
    assert(blast@.subrange(0, blast@.len() as int) =~= blast@);
    m
}

/// Actionable next steps for a change to `file`, from its blast radius.
pub fn blast_hints(file: &str, blast: &[BlastEntry]) -> (r: Vec<String>)
    ensures
        str_views(r@) == blast_hints_spec(file@, blast@),
{
    let mut hints: Vec<String> = Vec::new();
    if blast.len() == 0 {
        assert(str_views(hints@) =~= blast_hints_spec(file@, blast@));
        return hints;
    }
    let direct = direct_dependents(blast);
    let high = high_risk_paths(blast);
    let md = deepest(blast);
    let ghost first = if high@.len() > 0 {
        seq![
            "Review "@ + decimal(high@.len() as nat) + " high-risk direct dependent(s) first — changes there cascade further"@,
        ]
    } else {
        Seq::<Seq<char>>::empty()
    };
    if high.len() > 0 {
        let a = cat(chars_of("Review ").as_slice(), decimal_chars(high.len()).as_slice());
        let b = cat(a.as_slice(), chars_of(" high-risk direct dependent(s) first — changes there cascade further").as_slice());
        hints.push(string_of(b.as_slice()));
    }
    assert(str_views(hints@) =~= first);
    let ghost second = if direct <= 5 {
        "Run tests covering "@ + short_path_spec(file@) + " and its "@ + decimal(direct as nat) + " direct dependent(s)"@
    } else {
        "Run full test suite — "@ + decimal(direct as nat) + " direct dependents is broad impact"@
    };
    if direct <= 5 {
        let a = cat(chars_of("Run tests covering ").as_slice(), chars_of(short_path(file)).as_slice());
        let b = cat(a.as_slice(), chars_of(" and its ").as_slice());
        let c = cat(b.as_slice(), decimal_chars(direct).as_slice());
        let d = cat(c.as_slice(), chars_of(" direct dependent(s)").as_slice());
        hints.push(string_of(d.as_slice()));
    } else {
        let a = cat(chars_of("Run full test suite — ").as_slice(), decimal_chars(direct).as_slice());
        let b = cat(a.as_slice(), chars_of(" direct dependents is broad impact").as_slice());
        hints.push(string_of(b.as_slice()));
    }
    assert(str_views(hints@) =~= first + seq![second]);
    let ghost mid = str_views(hints@);
    if md >= 3 {
        let a = cat(chars_of("Cascade reaches depth ").as_slice(), decimal_chars(md).as_slice());
        let b = cat(a.as_slice(), chars_of(" — consider whether the API boundary at depth 1 can absorb this change").as_slice());
        hints.push(string_of(b.as_slice()));
        assert(str_views(hints@) =~= mid + seq![
            "Cascade reaches depth "@ + decimal(md as nat)
                + " — consider whether the API boundary at depth 1 can absorb this change"@,
        ]);
    } else {
        assert(str_views(hints@) =~= mid + Seq::<Seq<char>>::empty());
    }
    hints
}


// ---------------------------------------------------------------------------
// The doctor report
// ---------------------------------------------------------------------------

/// The version of the doctor report's layout.
pub const DOCTOR_SCHEMA_VERSION: &'static str = "atlas.doctor.v1";

/// The version of the graph contract the report describes.
pub const GRAPH_CONTRACT_VERSION: &'static str = "atlas.graph.v2";

/// The graph's totals and its health word.
pub struct DoctorHealth {
    pub status: String,
    pub total_files: usize,
    pub total_deps: usize,
    pub total_unresolved_imports: usize,
    pub total_external_imports: usize,
}

/// Everything the doctor reports about a graph.
pub struct AgentDoctor {
    pub schema_version: String,
    pub graph_contract_version: String,
    pub status: DoctorStatus,
    pub action_level: ActionLevel,
    pub gates: AgentGates,
    pub health: DoctorHealth,
    pub index: IndexFreshness,
    pub unresolved_imports: Vec<ImportProblem>,
    pub external_imports: Vec<ImportProblem>,
    pub isolated_files: Vec<String>,
    pub hotspots: Vec<HotspotEntry>,
    pub advice: String,
    pub recommendations: Vec<String>,
    pub recommended_commands: Vec<RecommendedCommand>,
}

/// The gates of a graph with these nodes and this freshness.
pub open spec fn doctor_gates(ns: Seq<FileNodeModel>, f: &IndexFreshness) -> AgentGates {
    AgentGates {
        files_indexed: ns.len() > 0,
        index_has_metadata: f.has_metadata,
        schema_current: !f.schema_mismatch,
        source_delta_clear: f.changed_files@.len() == 0 && f.missing_files@.len() == 0 && f.new_files@.len() == 0,
        index_fresh: !f.stale,
        unresolved_imports_clear: total(ns, NodeMeasure::UnresolvedImports) == 0,
    }
}

/// The health word of a graph: healthy when nothing is unresolved and the
/// index is fresh.
pub open spec fn health_word(ns: Seq<FileNodeModel>, f: &IndexFreshness) -> Seq<char> {
    if total(ns, NodeMeasure::UnresolvedImports) == 0 && !f.stale {
        "healthy"@
    } else {
        "warning"@
    }
}

pub open spec fn recommendation_labels(cs: Seq<CommandModel>) -> Seq<Seq<char>> {
    cs.map_values(|c: CommandModel| recommendation_label_spec(c))
}

/// What the doctor reports of a graph with nodes `ns` and dependents index
/// `rd`, whose index has freshness `f`, listing at most `limit` items of each
/// kind.
pub open spec fn doctor_report_valid(
    rd: Seq<RdepsEntry>,
    ns: Seq<FileNodeModel>,
    f: &IndexFreshness,
    limit: usize,
    d: &AgentDoctor,
) -> bool {
    &&& d.schema_version@ == DOCTOR_SCHEMA_VERSION@
    &&& d.graph_contract_version@ == GRAPH_CONTRACT_VERSION@
    &&& d.gates == doctor_gates(ns, f)
    &&& d.action_level == action_level_spec(d.gates)
    &&& d.status == status_spec(d.action_level)
    &&& d.health.status@ == health_word(ns, f)
    &&& d.health.total_files == ns.len()
    &&& d.health.total_deps == total(ns, NodeMeasure::Deps)
    &&& d.health.total_unresolved_imports == total(ns, NodeMeasure::UnresolvedImports)
    &&& d.health.total_external_imports == total(ns, NodeMeasure::ExternalImports)
    &&& same_freshness(&d.index, f)
    &&& problem_views(d.unresolved_imports@) == truncated(all_problems(ns, false), limit as nat)
    &&& problem_views(d.external_imports@) == truncated(all_problems(ns, true), limit as nat)
    &&& str_views(d.isolated_files@) == truncated(isolated_paths(rd, ns), limit as nat)
    &&& top_hotspots(rd, ns, limit as nat, d.hotspots@)
    &&& d.advice@ == advice_spec(d.action_level, d.gates)
    &&& command_models(d.recommended_commands@) == recommended_spec(
        d.action_level,
        d.gates,
        first_file_of(d.unresolved_imports@),
    )
    &&& str_views(d.recommendations@) == recommendation_labels(command_models(d.recommended_commands@))
}

fn labels_of(commands: &Vec<RecommendedCommand>) -> (r: Vec<String>)
    ensures
        str_views(r@) == recommendation_labels(command_models(commands@)),
{
    let mut r: Vec<String> = Vec::new();
    let mut i: usize = 0;
    while i < commands.len()
        invariant
            i <= commands@.len(),
            str_views(r@) == recommendation_labels(command_models(commands@)).subrange(0, i as int),
        decreases commands@.len() - i,
    {
        let ghost before = str_views(r@);
        r.push(recommendation_label(&commands[i]));
        assert(str_views(r@) =~= before.push(recommendation_label_spec(commands@[i as int]@)));
        i = i + 1;
        assert(str_views(r@) =~= recommendation_labels(command_models(commands@)).subrange(0, i as int));
    }
    assert(recommendation_labels(command_models(commands@)).subrange(0, i as int) =~= recommendation_labels(
        command_models(commands@),
    ));
    r
}

/// The doctor's report on a graph and its index freshness, listing at most
/// `limit` items of each kind.
pub fn build_doctor(graph: &CodeGraph, freshness: &IndexFreshness, limit: usize) -> (d: AgentDoctor)
    requires
        graph.wf(),
        graph.totals_fit(),
    ensures
        doctor_report_valid(graph.rdeps@, graph.node_views(), freshness, limit, &d),
{
    let stats = graph.stats();
    let unresolved = unresolved_entries(graph, limit);
    let external = external_entries(graph, limit);
    let isolated = isolated_files(graph, limit);
    let hotspots = hotspot_entries(graph, limit);
    let health = DoctorHealth {
        status: doctor_status(&stats, freshness).to_owned(),
        total_files: stats.total_files,
        total_deps: stats.total_deps,
        total_unresolved_imports: stats.total_unresolved_imports,
        total_external_imports: stats.total_external_imports,
    };
    let gates = gates_for(&stats, freshness);
    let action_level = action_level_for(&gates);
    let status = status_for(action_level);
    let advice = advice_for(action_level, &gates);
    let recommended_commands = recommended_commands_for(action_level, &gates, unresolved.as_slice());
    let recommendations = labels_of(&recommended_commands);
    AgentDoctor {
        schema_version: DOCTOR_SCHEMA_VERSION.to_owned(),
        graph_contract_version: GRAPH_CONTRACT_VERSION.to_owned(),
        status,
        action_level,
        gates,
        health,
        index: freshness.duplicate(),
        unresolved_imports: unresolved,
        external_imports: external,
        isolated_files: isolated,
        hotspots,
        advice,
        recommendations,
        recommended_commands,
    }
}

} // verus!
