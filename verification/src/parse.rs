//! Extraction of import statements and exported symbols from source text,
//! one set of regular expressions per language.
use vstd::prelude::*;
use crate::graph::Language;
use crate::order::str_views;
use crate::resolve::{before_first, before_first_exec, strip_alias, strip_rust_alias};
use crate::text::{
    cat, chars_eq, chars_of, lemma_skip_class_from, skip_class_exec, skip_class_from, slice_range,
    split, split_exec, starts_with, starts_with_exec, string_of, trim, trim_end_class,
    trim_end_class_exec, trim_exec, trim_start_class, trim_start_class_exec, views, CharClass,
};

verus! {

/// Rust `use` paths, a trailing brace group (`use a::{b, c}`) included.
pub const RUST_USE_RE: &'static str = r"(?m)^(?:\s*)use\s+(\w+(?:::\w+)*(?:::\{[^}]+\})?)";
/// Rust `mod name;` declarations, `pub` or `pub(..)` ones included.
pub const RUST_MOD_RE: &'static str = r"(?m)^(?:\s*)(?:pub(?:\s*\([^)]*\))?\s+)?mod\s+(\w+)\s*;";
/// Public Rust items.
pub const RUST_EXPORT_RE: &'static str = r"(?m)^pub\s+(?:async\s+)?(?:fn|struct|enum|trait|type|const)\s+(\w+)";
/// JavaScript/TypeScript `import ... from '...'`.
pub const JS_IMPORT_RE: &'static str = r#"(?m)import\s+.*?\s+from\s+['"]([^'"]+)['"]"#;
/// JavaScript/TypeScript side-effect imports: `import '...'`.
pub const JS_SIDE_EFFECT_RE: &'static str = r#"(?m)^\s*import\s+['"]([^'"]+)['"]"#;
/// JavaScript/TypeScript dynamic imports: `import('...')`.
pub const JS_DYNAMIC_RE: &'static str = r#"(?m)import\s*\(\s*['"]([^'"]+)['"]\s*\)"#;
/// JavaScript `require('...')`.
pub const JS_REQUIRE_RE: &'static str = r#"(?m)require\s*\(\s*['"]([^'"]+)['"]\s*\)"#;
/// JavaScript/TypeScript exports.
pub const JS_EXPORT_RE: &'static str = r"(?m)export\s+(?:default\s+)?(?:async\s+)?(?:function|class|const|let|var|interface|type|enum)\s+(\w+)";
/// Python `import x`.
pub const PY_IMPORT_RE: &'static str = r"(?m)^import\s+([\w.]+)";
/// Python `from x import ...` clauses, from the module to the end of the line.
pub const PY_FROM_RE: &'static str = r"(?m)^from\s+([\w.]+\s+import[^\r\n]*)";
/// Python top-level definitions.
pub const PY_EXPORT_RE: &'static str = r"(?m)^(?:async\s+)?(?:def|class)\s+(\w+)";
/// Go single-line imports.
pub const GO_SINGLE_RE: &'static str = r#"(?m)^import\s+"([^"]+)""#;
/// Go import blocks.
pub const GO_BLOCK_RE: &'static str = r#"(?ms)import\s*\((.*?)\)"#;
/// Quoted paths inside a Go import block.
pub const GO_PATH_RE: &'static str = r#""([^"]+)""#;
/// Exported Go functions.
pub const GO_EXPORT_RE: &'static str = r"(?m)^func\s+(?:\([^)]+\)\s+)?([A-Z]\w*)";

/// The text of capture group 1 of each successive non-overlapping match of
/// the regular expression `pattern` in `haystack`, in order (the empty text
/// where the group took no part in a match); `None` when `Regex::new` refuses
/// the pattern (a syntax error, or a compiled form over the default size limit).
pub uninterp spec fn regex_group1_matches(pattern: Seq<char>, haystack: Seq<char>) -> Option<Seq<Seq<char>>>;

/// Calls `regex::Regex::new` and then `Regex::captures_iter`, reading group 1
/// of each match with `Captures::get`. The contract claims only that the
/// result is a function of the pattern and the haystack, named
/// `regex_group1_matches`, and that `None` comes exactly when `Regex::new`
/// returns an error.
#[verifier::external_body]
fn regex_group1(pattern: &str, haystack: &str) -> (r: Option<Vec<String>>)
    ensures
        match r {
            Some(v) => regex_group1_matches(pattern@, haystack@) == Some(str_views(v@)),
            None => regex_group1_matches(pattern@, haystack@) is None,
        },
{
    match regex::Regex::new(pattern) {
        Ok(re) => Some(
            re.captures_iter(haystack).map(|c| c.get(1).map_or("", |m| m.as_str()).to_string()).collect(),
        ),
        Err(_) => None,
    }
}

/// The group-1 texts of the matches of `pattern` in `text`; nothing when the
/// pattern does not compile.
pub open spec fn matches_of(pattern: Seq<char>, text: Seq<char>) -> Seq<Seq<char>> {
    match regex_group1_matches(pattern, text) {
        Some(v) => v,
        None => Seq::empty(),
    }
}

/// The group-1 texts of the matches of `pattern` in `text`.
pub fn group1_matches(pattern: &str, text: &str) -> (r: Vec<String>)
    ensures
        str_views(r@) == matches_of(pattern@, text@),
{
    match regex_group1(pattern, text) {
        Some(v) => v,
        None => {
            let v: Vec<String> = Vec::new();
            assert(str_views(v@) =~= Seq::empty());
            v
        },
    }
}

/// A Rust `use` path into the standard library (`std`, `core` or `alloc`).
pub open spec fn is_std_path(p: Seq<char>) -> bool {
    ||| p == "std"@ || p == "core"@ || p == "alloc"@
    ||| starts_with(p, "std::"@) || starts_with(p, "core::"@) || starts_with(p, "alloc::"@)
}

/// The use paths among `uses` that do not name the standard library, in order.
pub open spec fn project_uses(uses: Seq<Seq<char>>) -> Seq<Seq<char>> {
    uses.filter(|p: Seq<char>| !is_std_path(p))
}

/// Each module name as a `crate::` path.
pub open spec fn crate_paths(mods: Seq<Seq<char>>) -> Seq<Seq<char>> {
    mods.map_values(|m: Seq<char>| "crate::"@ + m)
}

pub open spec fn rust_imports(content: Seq<char>) -> Seq<Seq<char>> {
    project_uses(matches_of(RUST_USE_RE@, content)) + crate_paths(matches_of(RUST_MOD_RE@, content))
}

pub open spec fn rust_exports(content: Seq<char>) -> Seq<Seq<char>> {
    matches_of(RUST_EXPORT_RE@, content)
}

pub open spec fn js_imports(content: Seq<char>) -> Seq<Seq<char>> {
    matches_of(JS_IMPORT_RE@, content) + matches_of(JS_SIDE_EFFECT_RE@, content) + matches_of(
        JS_DYNAMIC_RE@,
        content,
    ) + matches_of(JS_REQUIRE_RE@, content)
}

pub open spec fn js_exports(content: Seq<char>) -> Seq<Seq<char>> {
    matches_of(JS_EXPORT_RE@, content)
}

/// The module of a `from` clause (`module import names`): its text up to
/// the first white space.
pub open spec fn from_module(clause: Seq<char>) -> Seq<char> {
    clause.subrange(0, skip_class_from(clause, CharClass::NotWhitespace, 0))
}

/// The names part of a `from` clause: what follows the `import` keyword, up
/// to a comment.
pub open spec fn from_names_text(clause: Seq<char>) -> Seq<char> {
    let rest = trim_start_class(
        clause.subrange(from_module(clause).len() as int, clause.len() as int),
        CharClass::Whitespace,
    );
    let after = if starts_with(rest, "import"@) {
        rest.subrange(6, rest.len() as int)
    } else {
        Seq::empty()
    };
    before_first(after, "#"@)
}

/// One imported name, without alias, parentheses or surrounding space.
pub open spec fn clean_name(item: Seq<char>) -> Seq<char> {
    trim(trim_end_class(trim_start_class(strip_alias(item), CharClass::Is('(')), CharClass::Is(')')))
}

/// A name that can stand for a module: not empty and not `*`.
pub open spec fn is_module_name(n: Seq<char>) -> bool {
    n.len() > 0 && n != "*"@
}

/// The relative modules `dots + name` for the names among `items`.
pub open spec fn dotted_names(dots: Seq<char>, items: Seq<Seq<char>>) -> Seq<Seq<char>>
    decreases items.len(),
{
    if items.len() == 0 {
        Seq::empty()
    } else {
        dotted_names(dots, items.drop_last()) + if is_module_name(clean_name(items.last())) {
            seq![dots + clean_name(items.last())]
        } else {
            Seq::empty()
        }
    }
}

/// Nothing but dots.
pub open spec fn all_dots(m: Seq<char>) -> bool {
    m.len() > 0 && skip_class_from(m, CharClass::Is('.'), 0) == m.len()
}

/// The imports of one `from` clause: its module, or, for `from . import a, b`
/// (only dots before `import`), each imported name as a relative module.
pub open spec fn from_clause_imports(clause: Seq<char>) -> Seq<Seq<char>> {
    let m = from_module(clause);
    if all_dots(m) {
        let names = dotted_names(m, split(from_names_text(clause), ","@));
        if names.len() > 0 {
            names
        } else {
            seq![m]
        }
    } else {
        seq![m]
    }
}

/// The imports of each `from` clause, clause after clause.
pub open spec fn from_imports(clauses: Seq<Seq<char>>) -> Seq<Seq<char>>
    decreases clauses.len(),
{
    if clauses.len() == 0 {
        Seq::empty()
    } else {
        from_imports(clauses.drop_last()) + from_clause_imports(clauses.last())
    }
}

pub open spec fn python_imports(content: Seq<char>) -> Seq<Seq<char>> {
    matches_of(PY_IMPORT_RE@, content) + from_imports(matches_of(PY_FROM_RE@, content))
}

/// A Python name that is not private by convention.
pub open spec fn is_public_python_name(name: Seq<char>) -> bool {
    !starts_with(name, "_"@)
}

/// The public names among `names`, in order.
pub open spec fn public_python_names(names: Seq<Seq<char>>) -> Seq<Seq<char>> {
    names.filter(|n: Seq<char>| is_public_python_name(n))
}

pub open spec fn python_exports(content: Seq<char>) -> Seq<Seq<char>> {
    public_python_names(matches_of(PY_EXPORT_RE@, content))
}

/// The quoted paths of each Go import block, block after block.
pub open spec fn go_block_paths(blocks: Seq<Seq<char>>) -> Seq<Seq<char>>
    decreases blocks.len(),
{
    if blocks.len() == 0 {
        Seq::empty()
    } else {
        go_block_paths(blocks.drop_last()) + matches_of(GO_PATH_RE@, blocks.last())
    }
}

pub open spec fn go_imports(content: Seq<char>) -> Seq<Seq<char>> {
    matches_of(GO_SINGLE_RE@, content) + go_block_paths(matches_of(GO_BLOCK_RE@, content))
}

pub open spec fn go_exports(content: Seq<char>) -> Seq<Seq<char>> {
    matches_of(GO_EXPORT_RE@, content)
}

/// The imports extracted from a file in language `language`.
pub open spec fn imports_of(content: Seq<char>, language: Language) -> Seq<Seq<char>> {
    match language {
        Language::Rust => rust_imports(content),
        Language::TypeScript | Language::JavaScript => js_imports(content),
        Language::Python => python_imports(content),
        Language::Go => go_imports(content),
        Language::Unknown => Seq::empty(),
    }
}

/// The exports extracted from a file in language `language`.
pub open spec fn exports_of(content: Seq<char>, language: Language) -> Seq<Seq<char>> {
    match language {
        Language::Rust => rust_exports(content),
        Language::TypeScript | Language::JavaScript => js_exports(content),
        Language::Python => python_exports(content),
        Language::Go => go_exports(content),
        Language::Unknown => Seq::empty(),
    }
}

/// `a` followed by `b`.
fn concat_strings(a: Vec<String>, b: Vec<String>) -> (r: Vec<String>)
    ensures
        str_views(r@) == str_views(a@) + str_views(b@),
{
    let mut a = a;
    let mut b = b;
    let ghost av = a@;
    let ghost bv = b@;
    a.append(&mut b);
    assert(str_views(a@) =~= str_views(av) + str_views(bv));
    a
}

/// Extract import/use statements from source code.
pub fn extract_imports(content: &str, language: Language) -> (r: Vec<String>)
    ensures
        str_views(r@) == imports_of(content@, language),
{
    match language {
        Language::Rust => extract_rust_imports(content),
        Language::TypeScript | Language::JavaScript => extract_js_imports(content),
        Language::Python => extract_python_imports(content),
        Language::Go => extract_go_imports(content),
        Language::Unknown => {
            let v: Vec<String> = Vec::new();
            assert(str_views(v@) =~= Seq::empty());
            v
        },
    }
}

/// Extract exported symbols (function/struct/class names).
pub fn extract_exports(content: &str, language: Language) -> (r: Vec<String>)
    ensures
        str_views(r@) == exports_of(content@, language),
{
    match language {
        Language::Rust => extract_rust_exports(content),
        Language::TypeScript | Language::JavaScript => extract_js_exports(content),
        Language::Python => extract_python_exports(content),
        Language::Go => extract_go_exports(content),
        Language::Unknown => {
            let v: Vec<String> = Vec::new();
            assert(str_views(v@) =~= Seq::empty());
            v
        },
    }
}

fn is_std_path_exec(p: &[char]) -> (r: bool)
    ensures
        r == is_std_path(p@),
{
    chars_eq(p, chars_of("std").as_slice()) || chars_eq(p, chars_of("core").as_slice())
        || chars_eq(p, chars_of("alloc").as_slice()) || starts_with_exec(p, chars_of("std::").as_slice())
        || starts_with_exec(p, chars_of("core::").as_slice()) || starts_with_exec(p, chars_of("alloc::").as_slice())
}

/// The `use` paths of Rust source that do not name the standard library,
/// then its `mod` declarations (as `crate::name`).
pub fn extract_rust_imports(content: &str) -> (r: Vec<String>)
    ensures
        str_views(r@) == rust_imports(content@),
{
    let uses = group1_matches(RUST_USE_RE, content);
    let mods = group1_matches(RUST_MOD_RE, content);
    rust_imports_from(&uses, &mods)
}

/// The imports of Rust source given its `use` paths and its `mod` names: the
/// paths that do not name the standard library, then `crate::name` for each
/// module.
pub fn rust_imports_from(uses: &Vec<String>, mods: &Vec<String>) -> (r: Vec<String>)
    ensures
        str_views(r@) == project_uses(str_views(uses@)) + crate_paths(str_views(mods@)),
{
    let ghost uv = str_views(uses@);
    let mut imports: Vec<String> = Vec::new();
    let mut i: usize = 0;
    while i < uses.len()
        invariant
            i <= uses@.len(),
            uv == str_views(uses@),
            str_views(imports@) == project_uses(uv.subrange(0, i as int)),
        decreases uses@.len() - i,
    {
        let ghost before = str_views(imports@);
        assert(uv.subrange(0, i + 1).drop_last() =~= uv.subrange(0, i as int));
        reveal_with_fuel(Seq::filter, 1);
        let p = chars_of(uses[i].as_str());
        if !is_std_path_exec(p.as_slice()) {
            imports.push(uses[i].clone());
            assert(str_views(imports@) =~= before.push(uv[i as int]));
        }
        i = i + 1;
    }
    assert(uv.subrange(0, uv.len() as int) =~= uv);
    let ghost mv = str_views(mods@);
    let ghost kept = str_views(imports@);
    let mut j: usize = 0;
    while j < mods.len()
        invariant
            j <= mods@.len(),
            mv == str_views(mods@),
            str_views(imports@) == kept + crate_paths(mv.subrange(0, j as int)),
        decreases mods@.len() - j,
    {
        let ghost before = str_views(imports@);
        let mut s = "crate::".to_owned();
        s.append(mods[j].as_str());
        assert(s@ == "crate::"@ + mv[j as int]);
        let ghost sv = s@;
        imports.push(s);
        assert(str_views(imports@) =~= before.push(sv));
        assert(crate_paths(mv.subrange(0, j + 1)) =~= crate_paths(mv.subrange(0, j as int)).push(sv));
        j = j + 1;
        assert(str_views(imports@) =~= kept + crate_paths(mv.subrange(0, j as int)));
    }
    assert(mv.subrange(0, mv.len() as int) =~= mv);
    imports
}

/// The public items of Rust source.
pub fn extract_rust_exports(content: &str) -> (r: Vec<String>)
    ensures
        str_views(r@) == rust_exports(content@),
{
    group1_matches(RUST_EXPORT_RE, content)
}

/// The `import ... from`, side-effect `import '...'`, dynamic `import('...')`
/// and `require(...)` paths of JavaScript/TypeScript source.
pub fn extract_js_imports(content: &str) -> (r: Vec<String>)
    ensures
        str_views(r@) == js_imports(content@),
{
    let imports = group1_matches(JS_IMPORT_RE, content);
    let side_effects = group1_matches(JS_SIDE_EFFECT_RE, content);
    let dynamic = group1_matches(JS_DYNAMIC_RE, content);
    let required = group1_matches(JS_REQUIRE_RE, content);
    concat_strings(concat_strings(concat_strings(imports, side_effects), dynamic), required)
}

/// The exported names of JavaScript/TypeScript source.
pub fn extract_js_exports(content: &str) -> (r: Vec<String>)
    ensures
        str_views(r@) == js_exports(content@),
{
    group1_matches(JS_EXPORT_RE, content)
}

/// The imports of one `from` clause.
pub fn from_clause_imports_exec(clause: &[char]) -> (r: Vec<Vec<char>>)
    ensures
        views(r@) == from_clause_imports(clause@),
{
    proof {
        lemma_skip_class_from(clause@, CharClass::NotWhitespace, 0);
    }
    let k = skip_class_exec(clause, &CharClass::NotWhitespace, 0);
    let m = slice_range(clause, 0, k);
    let mut r: Vec<Vec<char>> = Vec::new();
    proof {
        lemma_skip_class_from(m@, CharClass::Is('.'), 0);
    }
    let d = skip_class_exec(m.as_slice(), &CharClass::Is('.'), 0);
    if m.len() > 0 && d == m.len() {
        let tail = slice_range(clause, k, clause.len());
        let rest = trim_start_class_exec(tail.as_slice(), &CharClass::Whitespace);
        let kw = chars_of("import");
        proof {
            reveal_strlit("import");
        }
        let after = if starts_with_exec(rest.as_slice(), kw.as_slice()) {
            slice_range(rest.as_slice(), 6, rest.len())
        } else {
            Vec::new()
        };
        assert(after@ =~= (if starts_with(rest@, "import"@) {
            rest@.subrange(6, rest@.len() as int)
        } else {
            Seq::<char>::empty()
        }));
        let text = before_first_exec(after.as_slice(), chars_of("#").as_slice());
        assert(text@ == from_names_text(clause@));
        let items = split_exec(text.as_slice(), chars_of(",").as_slice());
        let ghost iv = views(items@);
        let star = chars_of("*");
        let mut j: usize = 0;
        assert(views(r@) =~= dotted_names(m@, iv.subrange(0, 0)));
        while j < items.len()
            invariant
                j <= iv.len(),
                iv == views(items@),
                star@ == "*"@,
                views(r@) == dotted_names(m@, iv.subrange(0, j as int)),
            decreases iv.len() - j,
        {
            let a = strip_rust_alias(items[j].as_slice());
            let b = trim_start_class_exec(a.as_slice(), &CharClass::Is('('));
            let c = trim_end_class_exec(b.as_slice(), &CharClass::Is(')'));
            let name = trim_exec(c.as_slice());
            assert(name@ == clean_name(iv[j as int]));
            let ghost sub = iv.subrange(0, j + 1);
            assert(sub.drop_last() =~= iv.subrange(0, j as int));
            let ghost before = views(r@);
            if name.len() > 0 && !chars_eq(name.as_slice(), star.as_slice()) {
                let full = cat(m.as_slice(), name.as_slice());
                r.push(full);
                assert(views(r@) =~= before + seq![m@ + clean_name(iv[j as int])]);
            } else {
                assert(views(r@) =~= before + Seq::<Seq<char>>::empty());
            }
            j = j + 1;
        }
        assert(iv.subrange(0, iv.len() as int) =~= iv);
        if r.len() == 0 {
            r.push(m);
            assert(views(r@) =~= seq![from_module(clause@)]);
        }
    } else {
        r.push(m);
        assert(views(r@) =~= seq![from_module(clause@)]);
    }
    r
}

/// The `import x` modules of Python source, then the modules of its `from`
/// clauses, with `from . import a` giving the relative module `.a`.
pub fn extract_python_imports(content: &str) -> (r: Vec<String>)
    ensures
        str_views(r@) == python_imports(content@),
{
    let imports = group1_matches(PY_IMPORT_RE, content);
    let froms = group1_matches(PY_FROM_RE, content);
    python_imports_from(imports, &froms)
}

/// The imports of Python source given its `import` modules and its `from`
/// clauses: the modules, then the imports of each clause in turn.
pub fn python_imports_from(imports: Vec<String>, froms: &Vec<String>) -> (r: Vec<String>)
    ensures
        str_views(r@) == str_views(imports@) + from_imports(str_views(froms@)),
{
    let ghost fv = str_views(froms@);
    let mut found: Vec<String> = Vec::new();
    let mut i: usize = 0;
    assert(str_views(found@) =~= from_imports(fv.subrange(0, 0)));
    while i < froms.len()
        invariant
            i <= fv.len(),
            fv == str_views(froms@),
            str_views(found@) == from_imports(fv.subrange(0, i as int)),
        decreases fv.len() - i,
    {
        let clause = chars_of(froms[i].as_str());
        let parts = from_clause_imports_exec(clause.as_slice());
        let ghost pv = views(parts@);
        let ghost start = str_views(found@);
        let mut j: usize = 0;
        while j < parts.len()
            invariant
                j <= pv.len(),
                pv == views(parts@),
                str_views(found@) == start + pv.subrange(0, j as int),
            decreases pv.len() - j,
        {
            let ghost before = str_views(found@);
            found.push(string_of(parts[j].as_slice()));
            assert(str_views(found@) =~= before.push(pv[j as int]));
            j = j + 1;
            assert(str_views(found@) =~= start + pv.subrange(0, j as int));
        }
        assert(pv.subrange(0, pv.len() as int) =~= pv);
        let ghost sub = fv.subrange(0, i + 1);
        assert(sub.drop_last() =~= fv.subrange(0, i as int));
        assert(sub.last() == fv[i as int]);
        i = i + 1;
    }
    assert(fv.subrange(0, fv.len() as int) =~= fv);
    concat_strings(imports, found)
}

/// The top-level functions and classes of Python source whose names do not
/// start with an underscore.
pub fn extract_python_exports(content: &str) -> (r: Vec<String>)
    ensures
        str_views(r@) == python_exports(content@),
{
    let names = group1_matches(PY_EXPORT_RE, content);
    python_public_names(&names)
}

/// The names that do not start with an underscore, in order.
pub fn python_public_names(names: &Vec<String>) -> (r: Vec<String>)
    ensures
        str_views(r@) == public_python_names(str_views(names@)),
{
    let ghost nv = str_views(names@);
    let underscore = chars_of("_");
    let mut exports: Vec<String> = Vec::new();
    let mut i: usize = 0;
    while i < names.len()
        invariant
            i <= names@.len(),
            nv == str_views(names@),
            underscore@ == "_"@,
            str_views(exports@) == public_python_names(nv.subrange(0, i as int)),
        decreases names@.len() - i,
    {
        let ghost before = str_views(exports@);
        assert(nv.subrange(0, i + 1).drop_last() =~= nv.subrange(0, i as int));
        reveal_with_fuel(Seq::filter, 1);
        let n = chars_of(names[i].as_str());
        if !crate::text::starts_with_exec(n.as_slice(), underscore.as_slice()) {
            exports.push(names[i].clone());
            assert(str_views(exports@) =~= before.push(nv[i as int]));
        }
        i = i + 1;
    }
    assert(nv.subrange(0, nv.len() as int) =~= nv);
    exports
}

/// The single-line imports and the quoted paths of import blocks of Go source.
pub fn extract_go_imports(content: &str) -> (r: Vec<String>)
    ensures
        str_views(r@) == go_imports(content@),
{
    let singles = group1_matches(GO_SINGLE_RE, content);
    let blocks = group1_matches(GO_BLOCK_RE, content);
    let ghost bv = str_views(blocks@);
    let mut paths: Vec<String> = Vec::new();
    let mut i: usize = 0;
    assert(str_views(paths@) =~= go_block_paths(bv.subrange(0, 0)));
    while i < blocks.len()
        invariant
            i <= blocks@.len(),
            bv == str_views(blocks@),
            str_views(paths@) == go_block_paths(bv.subrange(0, i as int)),
        decreases blocks@.len() - i,
    {
        let found = group1_matches(GO_PATH_RE, blocks[i].as_str());
        let ghost sub = bv.subrange(0, i + 1);
        assert(sub.drop_last() =~= bv.subrange(0, i as int));
        paths = concat_strings(paths, found);
        i = i + 1;
    }
    assert(bv.subrange(0, bv.len() as int) =~= bv);
    concat_strings(singles, paths)
}

/// The exported (capitalised) functions of Go source.
pub fn extract_go_exports(content: &str) -> (r: Vec<String>)
    ensures
        str_views(r@) == go_exports(content@),
{
    group1_matches(GO_EXPORT_RE, content)
}

} // verus!
