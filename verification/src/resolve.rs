//! Resolution of raw import strings to the files of the graph, language by
//! language.
use vstd::prelude::*;
use crate::order::{sort_dedup, str_views, strictly_sorted};
use crate::text::string_of;
use crate::text::{
    cat, chars_eq, chars_of, contains_exec, contains_item, contains_seq, ends_with, ends_with_exec,
    find, find_exec, join, join_exec, last_index_of, last_index_of_exec, lemma_find_from,
    lemma_last_index_before, non_empty, non_empty_exec, replace_char, replace_char_exec,
    slice_range, split, split_exec, copy_chars, copy_parts, starts_with, starts_with_exec, trim, trim_end_class,
    trim_end_class_exec, trim_exec, trim_start_class, trim_start_class_exec, views, CharClass,
    skip_class_from, skip_class_exec, lemma_skip_class_from,
};

verus! {

// ---------------------------------------------------------------------------
// Rust
// ---------------------------------------------------------------------------

/// A Rust import that names a path inside the crate.
pub open spec fn rust_local(import: Seq<char>) -> bool {
    starts_with(import, "crate::"@) || starts_with(import, "super::"@) || starts_with(import, "self::"@)
}

/// The text before the first occurrence of `p` (all of `s` if none).
pub open spec fn before_first(s: Seq<char>, p: Seq<char>) -> Seq<char> {
    if find(s, p) < 0 {
        s
    } else {
        s.subrange(0, find(s, p))
    }
}

/// A use path without its ` as alias`.
pub open spec fn strip_alias(s: Seq<char>) -> Seq<char> {
    trim(before_first(s, " as "@))
}

/// One item of a brace group, expanded against `prefix`.
pub open spec fn expand_item(prefix: Seq<char>, raw: Seq<char>) -> Seq<Seq<char>> {
    let item = strip_alias(trim(raw));
    if item.len() == 0 {
        Seq::empty()
    } else if item == "self"@ {
        seq![prefix]
    } else {
        seq![prefix + "::"@ + item]
    }
}

/// The items of a brace group, expanded against `prefix`, in order.
pub open spec fn expand_items(prefix: Seq<char>, items: Seq<Seq<char>>) -> Seq<Seq<char>>
    decreases items.len(),
{
    if items.len() == 0 {
        Seq::empty()
    } else {
        expand_items(prefix, items.drop_last()) + expand_item(prefix, items.last())
    }
}

/// A use path with a brace group (`a::{b, c as d, self}`) as the paths it names.
pub open spec fn expand_rust(import: Seq<char>) -> Seq<Seq<char>> {
    let imp = strip_alias(trim(import));
    let i = find(imp, "::{"@);
    if i < 0 {
        seq![imp]
    } else {
        let prefix = imp.subrange(0, i);
        let group = trim_end_class(imp.subrange(i + "::{"@.len(), imp.len() as int), CharClass::Is('}'));
        expand_items(prefix, split(group, ","@))
    }
}

/// The last index below `n` at which `parts` holds `w`, or -1.
pub open spec fn last_part_before(parts: Seq<Seq<char>>, w: Seq<char>, n: int) -> int
    decreases n,
{
    if n <= 0 {
        -1
    } else if parts[n - 1] == w {
        n - 1
    } else {
        last_part_before(parts, w, n - 1)
    }
}

/// The source root of a Rust file: its path up to the last `src` directory,
/// or `src` when there is none.
pub open spec fn src_root(file: Seq<char>) -> Seq<char> {
    let parts = split(file, "/"@);
    let k = last_part_before(parts, "src"@, parts.len() as int);
    if k >= 0 {
        join(parts.subrange(0, k + 1), "/"@)
    } else {
        "src"@
    }
}

/// The module path of a Rust file below its source root.
pub open spec fn module_segments(file: Seq<char>, root: Seq<char>) -> Seq<Seq<char>> {
    let prefix = root + "/"@;
    let rel1 = if starts_with(file, prefix) {
        file.subrange(prefix.len() as int, file.len() as int)
    } else {
        file
    };
    let rel = if ends_with(rel1, ".rs"@) {
        rel1.subrange(0, rel1.len() - ".rs"@.len())
    } else {
        file
    };
    let segs = non_empty(split(rel, "/"@));
    if segs.len() > 0 && segs.last() == "mod"@ {
        segs.drop_last()
    } else if segs.len() == 1 && (segs.last() == "lib"@ || segs.last() == "main"@) {
        segs.drop_last()
    } else {
        segs
    }
}

fn literal(s: &str) -> (r: Vec<char>)
    ensures
        r@ == s@,
{
    chars_of(s)
}

/// The source root of a Rust file.
pub fn rust_src_root(source_file: &[char]) -> (r: Vec<char>)
    ensures
        r@ == src_root(source_file@),
{
    let slash = literal("/");
    let src = literal("src");
    let parts = split_exec(source_file, slash.as_slice());
    let ghost pv = views(parts@);
    let mut n: usize = parts.len();
    while n > 0
        invariant
            n <= pv.len(),
            pv == views(parts@),
            pv == split(source_file@, "/"@),
            slash@ == "/"@,
            src@ == "src"@,
            last_part_before(pv, "src"@, pv.len() as int) == last_part_before(pv, "src"@, n as int),
        decreases n,
    {
        if chars_eq(parts[n - 1].as_slice(), src.as_slice()) {
            assert(pv[n - 1] == "src"@);
            assert(last_part_before(pv, "src"@, n as int) == n - 1);
            let head = copy_parts(&parts, 0, n);
            let r = join_exec(&head, slash.as_slice());
            return r;
        }
        n = n - 1;
    }
    src
}

fn is_word(s: &[char], w: &str) -> (r: bool)
    ensures
        r == (s@ == w@),
{
    let wl = literal(w);
    chars_eq(s, wl.as_slice())
}

/// The module path of a Rust file below its source root.
pub fn rust_module_segments(source_file: &[char], src_root: &[char]) -> (r: Vec<Vec<char>>)
    ensures
        views(r@) == module_segments(source_file@, src_root@),
{
    let slash = literal("/");
    let prefix = cat(src_root, slash.as_slice());
    let rel1 = if starts_with_exec(source_file, prefix.as_slice()) {
        slice_range(source_file, prefix.len(), source_file.len())
    } else {
        copy_chars(source_file)
    };
    let rs = literal(".rs");
    let rel = if ends_with_exec(rel1.as_slice(), rs.as_slice()) {
        slice_range(rel1.as_slice(), 0, rel1.len() - rs.len())
    } else {
        copy_chars(source_file)
    };
    let pieces = split_exec(rel.as_slice(), slash.as_slice());
    let mut segs = non_empty_exec(pieces);
    let ghost sv = views(segs@);
    let len = segs.len();
    if len > 0 {
        if is_word(segs[len - 1].as_slice(), "mod") || (len == 1 && (is_word(
            segs[len - 1].as_slice(),
            "lib",
        ) || is_word(segs[len - 1].as_slice(), "main"))) {
            segs.pop();
            assert(views(segs@) =~= sv.drop_last());
        }
    }
    segs
}

/// `s` without its last `n` elements (empty when it has no more than `n`).
pub open spec fn pop_n(s: Seq<Seq<char>>, n: int) -> Seq<Seq<char>> {
    if n >= s.len() {
        Seq::empty()
    } else {
        s.subrange(0, s.len() - n)
    }
}

/// The first index at or after `i` that does not hold `w`.
pub open spec fn skip_word_from(t: Seq<Seq<char>>, w: Seq<char>, i: int) -> int
    decreases t.len() - i,
{
    if i < 0 || i >= t.len() {
        if i < 0 { 0 } else { t.len() as int }
    } else if t[i] == w {
        skip_word_from(t, w, i + 1)
    } else {
        i
    }
}

/// The module path a Rust use path names, seen from `module`; `None` for a
/// path with no segments.
pub open spec fn import_segments(import: Seq<char>, module: Seq<Seq<char>>) -> Option<Seq<Seq<char>>> {
    let parts = non_empty(split(import, "::"@));
    if parts.len() == 0 {
        None
    } else {
        let head = parts[0];
        let tail = parts.drop_first();
        if head == "crate"@ {
            Some(tail)
        } else if head == "self"@ {
            Some(module + tail)
        } else if head == "super"@ {
            let k = skip_word_from(tail, "super"@, 0);
            Some(pop_n(module, k + 1) + tail.subrange(k, tail.len() as int))
        } else {
            Some(parts)
        }
    }
}

/// `a` followed by `b`.
fn cat_parts(a: &Vec<Vec<char>>, b: &Vec<Vec<char>>) -> (r: Vec<Vec<char>>)
    ensures
        views(r@) == views(a@) + views(b@),
{
    let mut r = copy_parts(a, 0, a.len());
    let mut i: usize = 0;
    assert(views(a@).subrange(0, a@.len() as int) =~= views(a@));
    while i < b.len()
        invariant
            i <= b@.len(),
            views(r@) == views(a@) + views(b@).subrange(0, i as int),
        decreases b@.len() - i,
    {
        let ghost before = views(r@);
        let c = copy_chars(b[i].as_slice());
        assert(c@ == views(b@)[i as int]);
        r.push(c);
        assert(views(r@) =~= before.push(views(b@)[i as int]));
        i = i + 1;
        assert(views(r@) =~= views(a@) + views(b@).subrange(0, i as int));
    }
    assert(views(b@).subrange(0, b@.len() as int) =~= views(b@));
    r
}

/// The module path a Rust use path names, seen from `source_module`.
pub fn rust_import_segments(import: &[char], source_module: &Vec<Vec<char>>) -> (r: Option<Vec<Vec<char>>>)
    ensures
        match r {
            Some(v) => import_segments(import@, views(source_module@)) == Some(views(v@)),
            None => import_segments(import@, views(source_module@)) is None,
        },
{
    let sep = literal("::");
    let pieces = split_exec(import, sep.as_slice());
    let parts = non_empty_exec(pieces);
    if parts.len() == 0 {
        return None;
    }
    let ghost pv = views(parts@);
    let tail = copy_parts(&parts, 1, parts.len());
    assert(views(tail@) =~= pv.drop_first());
    if is_word(parts[0].as_slice(), "crate") {
        Some(tail)
    } else if is_word(parts[0].as_slice(), "self") {
        Some(cat_parts(source_module, &tail))
    } else if is_word(parts[0].as_slice(), "super") {
        let ghost tv = views(tail@);
        let mut k: usize = 0;
        while k < tail.len() && is_word(tail[k].as_slice(), "super")
            invariant
                k <= tv.len(),
                tv == views(tail@),
                skip_word_from(tv, "super"@, 0) == skip_word_from(tv, "super"@, k as int),
            decreases tv.len() - k,
        {
            k = k + 1;
        }
        let ml = source_module.len();
        let keep = if k + 1 >= ml { 0 } else { ml - (k + 1) };
        let base = copy_parts(source_module, 0, keep);
        let rest = copy_parts(&tail, k, tail.len());
        let ghost mv = views(source_module@);
        assert(views(base@) =~= pop_n(mv, k + 1));
        Some(cat_parts(&base, &rest))
    } else {
        Some(copy_parts(&parts, 0, parts.len()))
    }
}

/// `root/segs[..len].rs`.
pub open spec fn file_candidate(root: Seq<char>, segs: Seq<Seq<char>>, len: int) -> Seq<char> {
    root + "/"@ + join(segs.subrange(0, len), "/"@) + ".rs"@
}

/// `root/segs[..len]/mod.rs`.
pub open spec fn mod_candidate(root: Seq<char>, segs: Seq<Seq<char>>, len: int) -> Seq<char> {
    root + "/"@ + join(segs.subrange(0, len), "/"@) + "/mod.rs"@
}

/// For a single segment, the crate root file that exists.
pub open spec fn root_fallback(root: Seq<char>, segs: Seq<Seq<char>>, paths: Seq<Seq<char>>) -> Option<Seq<char>> {
    if segs.len() == 1 {
        if paths.contains(root + "/lib.rs"@) {
            Some(root + "/lib.rs"@)
        } else if paths.contains(root + "/main.rs"@) {
            Some(root + "/main.rs"@)
        } else if paths.contains(root + "/mod.rs"@) {
            Some(root + "/mod.rs"@)
        } else {
            None
        }
    } else {
        None
    }
}

/// The file for the longest prefix of at most `len` segments that names one.
pub open spec fn resolve_segments_from(
    root: Seq<char>,
    segs: Seq<Seq<char>>,
    paths: Seq<Seq<char>>,
    len: int,
) -> Option<Seq<char>>
    decreases len,
{
    if len <= 0 {
        root_fallback(root, segs, paths)
    } else if paths.contains(file_candidate(root, segs, len)) {
        Some(file_candidate(root, segs, len))
    } else if paths.contains(mod_candidate(root, segs, len)) {
        Some(mod_candidate(root, segs, len))
    } else {
        resolve_segments_from(root, segs, paths, len - 1)
    }
}

/// The file a module path names: the longest prefix that is a file
/// (`a/b.rs`) or a module directory (`a/b/mod.rs`).
pub open spec fn resolve_segments(root: Seq<char>, segs: Seq<Seq<char>>, paths: Seq<Seq<char>>) -> Option<Seq<char>> {
    resolve_segments_from(root, segs, paths, segs.len() as int)
}

/// The file a module path names.
pub fn resolve_rust_segments(src_root: &[char], segments: &Vec<Vec<char>>, all_paths: &Vec<Vec<char>>) -> (r: Option<Vec<char>>)
    ensures
        match r {
            Some(p) => resolve_segments(src_root@, views(segments@), views(all_paths@)) == Some(p@),
            None => resolve_segments(src_root@, views(segments@), views(all_paths@)) is None,
        },
{
    let ghost sv = views(segments@);
    let ghost paths = views(all_paths@);
    let slash = literal("/");
    let rs = literal(".rs");
    let mod_rs = literal("/mod.rs");
    let root_slash = cat(src_root, slash.as_slice());
    let mut len: usize = segments.len();
    while len > 0
        invariant
            len <= sv.len(),
            sv == views(segments@),
            paths == views(all_paths@),
            slash@ == "/"@,
            rs@ == ".rs"@,
            mod_rs@ == "/mod.rs"@,
            root_slash@ == src_root@ + "/"@,
            resolve_segments(src_root@, sv, paths) == resolve_segments_from(src_root@, sv, paths, len as int),
        decreases len,
    {
        let head = copy_parts(segments, 0, len);
        let module_dir = join_exec(&head, slash.as_slice());
        let base = cat(root_slash.as_slice(), module_dir.as_slice());
        let file = cat(base.as_slice(), rs.as_slice());
        assert(file@ =~= file_candidate(src_root@, sv, len as int));
        if contains_item(all_paths, file.as_slice()) {
            return Some(file);
        }
        let m = cat(base.as_slice(), mod_rs.as_slice());
        assert(m@ =~= mod_candidate(src_root@, sv, len as int));
        if contains_item(all_paths, m.as_slice()) {
            return Some(m);
        }
        len = len - 1;
    }
    if segments.len() == 1 {
        let lib = cat(src_root, literal("/lib.rs").as_slice());
        if contains_item(all_paths, lib.as_slice()) {
            return Some(lib);
        }
        let main = cat(src_root, literal("/main.rs").as_slice());
        if contains_item(all_paths, main.as_slice()) {
            return Some(main);
        }
        let modf = cat(src_root, literal("/mod.rs").as_slice());
        if contains_item(all_paths, modf.as_slice()) {
            return Some(modf);
        }
    }
    None
}

/// The contents of a file, when known.
pub open spec fn content_view(c: Option<&[char]>) -> Option<Seq<char>> {
    match c {
        Some(s) => Some(s@),
        None => None,
    }
}

/// The import appears as a `use` inside the file's inline `mod tests`
/// (everything after the first `mod tests`).
pub open spec fn in_test_module(import: Seq<char>, content: Option<Seq<char>>) -> bool {
    match content {
        None => false,
        Some(c) => {
            let start = find(c, "mod tests"@);
            if start < 0 {
                false
            } else {
                let tm = c.subrange(start, c.len() as int);
                contains_seq(tm, "use "@ + import) || contains_seq(tm, "use "@ + import + "::"@)
                    || contains_seq(tm, "use "@ + import + ";"@)
            }
        },
    }
}

/// Whether `import` is used inside the inline test module of `content`.
pub fn rust_import_appears_inside_inline_test_module(import: &[char], source_content: Option<&[char]>) -> (r: bool)
    ensures
        r == in_test_module(import@, content_view(source_content)),
{
    match source_content {
        None => false,
        Some(content) => {
            let marker = literal("mod tests");
            proof {
                lemma_find_from(content@, marker@, 0);
            }
            match find_exec(content, marker.as_slice()) {
                None => false,
                Some(start) => {
                    let tm = slice_range(content, start, content.len());
                    let use_import = cat(literal("use ").as_slice(), import);
                    let with_path = cat(use_import.as_slice(), literal("::").as_slice());
                    let with_semi = cat(use_import.as_slice(), literal(";").as_slice());
                    contains_exec(tm.as_slice(), use_import.as_slice()) || contains_exec(tm.as_slice(), with_path.as_slice())
                        || contains_exec(tm.as_slice(), with_semi.as_slice())
                },
            }
        },
    }
}

/// For `crate::name` where the file itself declares `mod name;`, the name of
/// that child module of the file's own module.
pub open spec fn declared_child(expanded: Seq<char>, content: Option<Seq<char>>) -> Option<Seq<char>> {
    match content {
        None => None,
        Some(c) => {
            let name = expanded.skip(7);
            if starts_with(expanded, "crate::"@) && name.len() > 0 && !contains_seq(name, ":"@)
                && contains_seq(c, "mod "@ + name + ";"@) {
                Some(name)
            } else {
                None
            }
        },
    }
}

/// What one expanded Rust use path resolves to, ignoring `mod` declarations.
pub open spec fn resolve_rust_path(
    expanded: Seq<char>,
    root: Seq<char>,
    module: Seq<Seq<char>>,
    paths: Seq<Seq<char>>,
    content: Option<Seq<char>>,
) -> Option<Seq<char>> {
    match import_segments(expanded, module) {
        None => None,
        Some(segs) => match resolve_segments(root, segs, paths) {
            Some(p) => Some(p),
            None => if in_test_module(expanded, content) {
                match import_segments(expanded, module.push("tests"@)) {
                    Some(s2) => resolve_segments(root, s2, paths),
                    None => None,
                }
            } else {
                None
            },
        },
    }
}

/// What one expanded Rust use path resolves to: a module the file declares
/// with `mod name;` is looked up under the file's own module first.
pub open spec fn resolve_rust_one(
    expanded: Seq<char>,
    root: Seq<char>,
    module: Seq<Seq<char>>,
    paths: Seq<Seq<char>>,
    content: Option<Seq<char>>,
) -> Option<Seq<char>> {
    match declared_child(expanded, content) {
        Some(name) => match resolve_segments(root, module.push(name), paths) {
            Some(p) => Some(p),
            None => resolve_rust_path(expanded, root, module, paths, content),
        },
        None => resolve_rust_path(expanded, root, module, paths, content),
    }
}

/// The files a Rust use statement resolves to.
pub open spec fn rust_resolved(
    import: Seq<char>,
    file: Seq<char>,
    paths: Seq<Seq<char>>,
    content: Option<Seq<char>>,
) -> Set<Seq<char>> {
    let root = src_root(file);
    let module = module_segments(file, root);
    let ex = expand_rust(import);
    Set::new(|p: Seq<char>| exists|j: int| 0 <= j < ex.len() && #[trigger] resolve_rust_one(ex[j], root, module, paths, content) == Some(p))
}

fn declared_child_exec(expanded: &[char], source_content: Option<&[char]>) -> (r: Option<Vec<char>>)
    ensures
        match r {
            Some(n) => declared_child(expanded@, content_view(source_content)) == Some(n@),
            None => declared_child(expanded@, content_view(source_content)) is None,
        },
{
    match source_content {
        None => None,
        Some(c) => {
            let prefix = literal("crate::");
            proof {
                reveal_strlit("crate::");
            }
            if !starts_with_exec(expanded, prefix.as_slice()) {
                return None;
            }
            let name = slice_range(expanded, 7, expanded.len());
            assert(name@ =~= expanded@.skip(7));
            if name.len() == 0 || contains_exec(name.as_slice(), literal(":").as_slice()) {
                return None;
            }
            let decl = cat(cat(literal("mod ").as_slice(), name.as_slice()).as_slice(), literal(";").as_slice());
            if contains_exec(c, decl.as_slice()) {
                Some(name)
            } else {
                None
            }
        },
    }
}

/// What one expanded Rust use path resolves to.
fn resolve_rust_one_exec(
    expanded: &[char],
    root: &[char],
    module: &Vec<Vec<char>>,
    all_paths: &Vec<Vec<char>>,
    source_content: Option<&[char]>,
) -> (r: Option<Vec<char>>)
    ensures
        match r {
            Some(p) => resolve_rust_one(expanded@, root@, views(module@), views(all_paths@), content_view(source_content)) == Some(p@),
            None => resolve_rust_one(expanded@, root@, views(module@), views(all_paths@), content_view(source_content)) is None,
        },
{
    match declared_child_exec(expanded, source_content) {
        Some(name) => {
            let mut child = copy_parts(module, 0, module.len());
            let ghost mv = views(module@);
            assert(mv.subrange(0, mv.len() as int) =~= mv);
            let ghost nv = name@;
            child.push(name);
            assert(views(child@) =~= mv.push(nv));
            match resolve_rust_segments(root, &child, all_paths) {
                Some(p) => Some(p),
                None => resolve_rust_path_exec(expanded, root, module, all_paths, source_content),
            }
        },
        None => resolve_rust_path_exec(expanded, root, module, all_paths, source_content),
    }
}

/// What one expanded Rust use path resolves to, ignoring `mod` declarations.
fn resolve_rust_path_exec(
    expanded: &[char],
    root: &[char],
    module: &Vec<Vec<char>>,
    all_paths: &Vec<Vec<char>>,
    source_content: Option<&[char]>,
) -> (r: Option<Vec<char>>)
    ensures
        match r {
            Some(p) => resolve_rust_path(expanded@, root@, views(module@), views(all_paths@), content_view(source_content)) == Some(p@),
            None => resolve_rust_path(expanded@, root@, views(module@), views(all_paths@), content_view(source_content)) is None,
        },
{
    match rust_import_segments(expanded, module) {
        None => None,
        Some(segs) => match resolve_rust_segments(root, &segs, all_paths) {
            Some(p) => Some(p),
            None => {
                if rust_import_appears_inside_inline_test_module(expanded, source_content) {
                    let mut inline_module = copy_parts(module, 0, module.len());
                    let ghost mv = views(module@);
                    assert(mv.subrange(0, mv.len() as int) =~= mv);
                    let tests = literal("tests");
                    let ghost tv = tests@;
                    inline_module.push(tests);
                    assert(views(inline_module@) =~= mv.push("tests"@));
                    match rust_import_segments(expanded, &inline_module) {
                        Some(s2) => resolve_rust_segments(root, &s2, all_paths),
                        None => None,
                    }
                } else {
                    None
                }
            },
        },
    }
}

/// The files of the graph that a Rust use statement names, in increasing
/// order, each once.
pub fn resolve_rust_import(
    import: &[char],
    source_file: &[char],
    all_paths: &Vec<Vec<char>>,
    source_content: Option<&[char]>,
) -> (r: Vec<String>)
    ensures
        strictly_sorted(str_views(r@)),
        str_views(r@).to_set() == rust_resolved(import@, source_file@, views(all_paths@), content_view(source_content)),
{
    let root = rust_src_root(source_file);
    let module = rust_module_segments(source_file, root.as_slice());
    let expanded = expand_rust_import(import);
    let ghost ex = views(expanded@);
    let ghost paths = views(all_paths@);
    let ghost content = content_view(source_content);
    let mut found: Vec<String> = Vec::new();
    let mut k: usize = 0;
    while k < expanded.len()
        invariant
            k <= ex.len(),
            ex == views(expanded@),
            ex == expand_rust(import@),
            paths == views(all_paths@),
            content == content_view(source_content),
            root@ == src_root(source_file@),
            views(module@) == module_segments(source_file@, root@),
            forall|p: Seq<char>| #[trigger] str_views(found@).contains(p) <==> exists|j: int| 0 <= j < k && #[trigger] resolve_rust_one(ex[j], root@, views(module@), paths, content) == Some(p),
        decreases ex.len() - k,
    {
        let one = resolve_rust_one_exec(expanded[k].as_slice(), root.as_slice(), &module, all_paths, source_content);
        let ghost before = str_views(found@);
        match one {
            Some(p) => {
                let ps = string_of(p.as_slice());
                found.push(ps);
                assert(str_views(found@) =~= before.push(p@));
                assert forall|q: Seq<char>| #[trigger] str_views(found@).contains(q) <==> exists|j: int| 0 <= j < k + 1 && #[trigger] resolve_rust_one(ex[j], root@, views(module@), paths, content) == Some(q) by {
                    if q == p@ {
                        assert(resolve_rust_one(ex[k as int], root@, views(module@), paths, content) == Some(q));
                        assert(str_views(found@)[before.len() as int] == q);
                    }
                    if before.contains(q) {
                        let i = choose|i: int| 0 <= i < before.len() && before[i] == q;
                        assert(str_views(found@)[i] == q);
                    }
                    if str_views(found@).contains(q) && q != p@ {
                        let i = choose|i: int| 0 <= i < str_views(found@).len() && str_views(found@)[i] == q;
                        assert(before[i] == q);
                    }
                }
            },
            None => {
                assert forall|q: Seq<char>| #[trigger] str_views(found@).contains(q) <==> exists|j: int| 0 <= j < k + 1 && #[trigger] resolve_rust_one(ex[j], root@, views(module@), paths, content) == Some(q) by {
                    if exists|j: int| 0 <= j < k + 1 && #[trigger] resolve_rust_one(ex[j], root@, views(module@), paths, content) == Some(q) {
                        let j = choose|j: int| 0 <= j < k + 1 && #[trigger] resolve_rust_one(ex[j], root@, views(module@), paths, content) == Some(q);
                        assert(j < k);
                    }
                }
            },
        }
        k = k + 1;
    }
    let r = sort_dedup(&found);
    assert(str_views(r@).to_set() =~= rust_resolved(import@, source_file@, paths, content)) by {
        assert forall|p: Seq<char>| str_views(r@).to_set().contains(p) <==> rust_resolved(import@, source_file@, paths, content).contains(p) by {
            assert(str_views(found@).to_set().contains(p) <==> str_views(found@).contains(p));
        }
    }
    r
}

/// Whether `c` is a Rust local import.
pub fn is_rust_local_import(import: &[char]) -> (r: bool)
    ensures
        r == rust_local(import@),
{
    let c = chars_of("crate::");
    let s = chars_of("super::");
    let l = chars_of("self::");
    starts_with_exec(import, c.as_slice()) || starts_with_exec(import, s.as_slice())
        || starts_with_exec(import, l.as_slice())
}

/// The text before the first occurrence of `p` (all of `s` if none).
pub fn before_first_exec(s: &[char], p: &[char]) -> (r: Vec<char>)
    ensures
        r@ == before_first(s@, p@),
{
    proof {
        lemma_find_from(s@, p@, 0);
    }
    match find_exec(s, p) {
        Some(i) => slice_range(s, 0, i),
        None => slice_range(s, 0, s.len()),
    }
}

/// A use path without its ` as alias`.
pub fn strip_rust_alias(import: &[char]) -> (r: Vec<char>)
    ensures
        r@ == strip_alias(import@),
{
    let sep = chars_of(" as ");
    let head = before_first_exec(import, sep.as_slice());
    trim_exec(head.as_slice())
}

/// The paths a Rust use statement names, brace groups expanded.
pub fn expand_rust_import(import: &[char]) -> (r: Vec<Vec<char>>)
    ensures
        views(r@) == expand_rust(import@),
{
    let t = trim_exec(import);
    let imp = strip_rust_alias(t.as_slice());
    let open = chars_of("::{");
    match find_exec(imp.as_slice(), open.as_slice()) {
        None => {
            let mut v: Vec<Vec<char>> = Vec::new();
            let ghost iv = imp@;
            v.push(imp);
            assert(views(v@) =~= seq![iv]);
            v
        },
        Some(i) => {
            proof {
                lemma_find_from(imp@, open@, 0);
            }
            let il = imp.len();
            let prefix = slice_range(imp.as_slice(), 0, i);
            let rest = slice_range(imp.as_slice(), i + open.len(), il);
            let group = trim_end_class_exec(rest.as_slice(), &CharClass::Is('}'));
            let comma = chars_of(",");
            let items = split_exec(group.as_slice(), comma.as_slice());
            let ghost iv = views(items@);
            let self_word = chars_of("self");
            let sep = chars_of("::");
            let mut out: Vec<Vec<char>> = Vec::new();
            let mut k: usize = 0;
            assert(views(out@) =~= expand_items(prefix@, iv.subrange(0, 0)));
            while k < items.len()
                invariant
                    k <= iv.len(),
                    iv == views(items@),
                    self_word@ == "self"@,
                    sep@ == "::"@,
                    views(out@) == expand_items(prefix@, iv.subrange(0, k as int)),
                decreases iv.len() - k,
            {
                let ghost before = views(out@);
                let ghost sub = iv.subrange(0, k + 1);
                assert(sub.drop_last() =~= iv.subrange(0, k as int));
                assert(sub.last() == iv[k as int]);
                let ti = trim_exec(items[k].as_slice());
                let item = strip_rust_alias(ti.as_slice());
                if item.len() == 0 {
                    assert(expand_item(prefix@, iv[k as int]) =~= Seq::<Seq<char>>::empty());
                    assert(views(out@) =~= before + expand_item(prefix@, iv[k as int]));
                } else if chars_eq(item.as_slice(), self_word.as_slice()) {
                    let p = slice_range(prefix.as_slice(), 0, prefix.len());
                    assert(p@ =~= prefix@);
                    out.push(p);
                    assert(views(out@) =~= before + expand_item(prefix@, iv[k as int]));
                } else {
                    let with_sep = cat(prefix.as_slice(), sep.as_slice());
                    let full = cat(with_sep.as_slice(), item.as_slice());
                    let ghost fv = full@;
                    out.push(full);
                    assert(views(out@) =~= before + expand_item(prefix@, iv[k as int]));
                }
                k = k + 1;
            }
            assert(iv.subrange(0, iv.len() as int) =~= iv);
            out
        },
    }
}


// ---------------------------------------------------------------------------
// Relative paths, JavaScript/TypeScript, Python, Go
// ---------------------------------------------------------------------------

/// The directory part of a path: everything before its last `/` (empty when
/// there is none).
pub open spec fn dir_of(file: Seq<char>) -> Seq<char> {
    let k = last_index_of(file, '/');
    if k >= 0 {
        file.subrange(0, k)
    } else {
        Seq::empty()
    }
}

/// One step of resolving a relative path: `.` and empty pieces stay, `..`
/// goes up one directory, any other piece goes down into it.
pub open spec fn normalize_step(parts: Seq<Seq<char>>, piece: Seq<char>) -> Seq<Seq<char>> {
    if piece.len() == 0 || piece == "."@ {
        parts
    } else if piece == ".."@ {
        if parts.len() > 0 {
            parts.drop_last()
        } else {
            parts
        }
    } else {
        parts.push(piece)
    }
}

pub open spec fn normalize_pieces(parts: Seq<Seq<char>>, pieces: Seq<Seq<char>>) -> Seq<Seq<char>>
    decreases pieces.len(),
{
    if pieces.len() == 0 {
        parts
    } else {
        normalize_step(normalize_pieces(parts, pieces.drop_last()), pieces.last())
    }
}

/// `import`, a relative path, resolved against the directory `base_dir`.
pub open spec fn normalize(base_dir: Seq<char>, import: Seq<char>) -> Seq<char> {
    join(normalize_pieces(non_empty(split(base_dir, "/"@)), split(import, "/"@)), "/"@)
}

/// The first candidate that is among `paths`.
pub open spec fn first_in(cands: Seq<Seq<char>>, paths: Seq<Seq<char>>) -> Option<Seq<char>>
    decreases cands.len(),
{
    if cands.len() == 0 {
        None
    } else if paths.contains(cands[0]) {
        Some(cands[0])
    } else {
        first_in(cands.drop_first(), paths)
    }
}

/// The directory part of a path.
pub fn dir_of_exec(file: &[char]) -> (r: Vec<char>)
    ensures
        r@ == dir_of(file@),
{
    proof {
        lemma_last_index_before(file@, '/', file@.len() as int);
    }
    match last_index_of_exec(file, '/') {
        Some(k) => slice_range(file, 0, k),
        None => Vec::new(),
    }
}

/// Resolves a relative path against a directory.
pub fn normalize_relative_path(base_dir: &[char], import: &[char]) -> (r: Vec<char>)
    ensures
        r@ == normalize(base_dir@, import@),
{
    let slash = literal("/");
    let base_pieces = split_exec(base_dir, slash.as_slice());
    let mut parts = non_empty_exec(base_pieces);
    let pieces = split_exec(import, slash.as_slice());
    let ghost start = views(parts@);
    let ghost pv = views(pieces@);
    let dot = literal(".");
    let dotdot = literal("..");
    let mut i: usize = 0;
    assert(pv.subrange(0, 0) =~= Seq::<Seq<char>>::empty());
    while i < pieces.len()
        invariant
            i <= pv.len(),
            pv == views(pieces@),
            dot@ == "."@,
            dotdot@ == ".."@,
            views(parts@) == normalize_pieces(start, pv.subrange(0, i as int)),
        decreases pv.len() - i,
    {
        let ghost before = views(parts@);
        let ghost sub = pv.subrange(0, i + 1);
        assert(sub.drop_last() =~= pv.subrange(0, i as int));
        assert(sub.last() == pv[i as int]);
        let piece = pieces[i].as_slice();
        if piece.len() == 0 || chars_eq(piece, dot.as_slice()) {
        } else if chars_eq(piece, dotdot.as_slice()) {
            if parts.len() > 0 {
                parts.pop();
                assert(views(parts@) =~= before.drop_last());
            }
        } else {
            let c = copy_chars(piece);
            parts.push(c);
            assert(views(parts@) =~= before.push(pv[i as int]));
        }
        i = i + 1;
    }
    assert(pv.subrange(0, pv.len() as int) =~= pv);
    join_exec(&parts, slash.as_slice())
}

/// The first candidate that is among `all_paths`.
pub fn first_in_exec(cands: &Vec<Vec<char>>, all_paths: &Vec<Vec<char>>) -> (r: Option<Vec<char>>)
    ensures
        match r {
            Some(p) => first_in(views(cands@), views(all_paths@)) == Some(p@),
            None => first_in(views(cands@), views(all_paths@)) is None,
        },
{
    let ghost cv = views(cands@);
    let mut i: usize = 0;
    assert(cv.skip(0) =~= cv);
    while i < cands.len()
        invariant
            i <= cv.len(),
            cv == views(cands@),
            first_in(cv, views(all_paths@)) == first_in(cv.skip(i as int), views(all_paths@)),
        decreases cv.len() - i,
    {
        assert(cv.skip(i as int).drop_first() =~= cv.skip(i + 1));
        assert(cv.skip(i as int)[0] == cv[i as int]);
        if contains_item(all_paths, cands[i].as_slice()) {
            return Some(copy_chars(cands[i].as_slice()));
        }
        i = i + 1;
    }
    None
}

/// The suffixes tried after a JavaScript/TypeScript relative import.
pub open spec fn js_suffixes() -> Seq<Seq<char>> {
    seq![""@, ".ts"@, ".tsx"@, ".js"@, ".jsx"@, "/index.ts"@, "/index.js"@]
}

/// `base` followed by each suffix.
pub open spec fn with_suffixes(base: Seq<char>, sufs: Seq<Seq<char>>) -> Seq<Seq<char>> {
    sufs.map_values(|x: Seq<char>| base + x)
}

/// The file a relative JavaScript/TypeScript import names; `None` for a
/// package import.
pub open spec fn resolve_js(import: Seq<char>, file: Seq<char>, paths: Seq<Seq<char>>) -> Option<Seq<char>> {
    if !starts_with(import, "."@) {
        None
    } else {
        first_in(with_suffixes(normalize(dir_of(file), import), js_suffixes()), paths)
    }
}

/// The file a relative JavaScript/TypeScript import names.
pub fn resolve_js_import(import: &[char], source_file: &[char], all_paths: &Vec<Vec<char>>) -> (r: Option<Vec<char>>)
    ensures
        match r {
            Some(p) => resolve_js(import@, source_file@, views(all_paths@)) == Some(p@),
            None => resolve_js(import@, source_file@, views(all_paths@)) is None,
        },
{
    let dot = literal(".");
    if !starts_with_exec(import, dot.as_slice()) {
        return None;
    }
    let base_dir = dir_of_exec(source_file);
    let cleaned = normalize_relative_path(base_dir.as_slice(), import);
    let sufs: Vec<Vec<char>> = vec![
        literal(""),
        literal(".ts"),
        literal(".tsx"),
        literal(".js"),
        literal(".jsx"),
        literal("/index.ts"),
        literal("/index.js"),
    ];
    assert(views(sufs@) =~= js_suffixes());
    let mut cands: Vec<Vec<char>> = Vec::new();
    let mut i: usize = 0;
    while i < sufs.len()
        invariant
            i <= sufs@.len(),
            views(cands@) == with_suffixes(cleaned@, views(sufs@).subrange(0, i as int)),
        decreases sufs@.len() - i,
    {
        let ghost before = views(cands@);
        let c = cat(cleaned.as_slice(), sufs[i].as_slice());
        cands.push(c);
        assert(views(cands@) =~= before.push(cleaned@ + views(sufs@)[i as int]));
        i = i + 1;
        assert(views(cands@) =~= with_suffixes(cleaned@, views(sufs@).subrange(0, i as int)));
    }
    assert(views(sufs@).subrange(0, 7) =~= js_suffixes());
    first_in_exec(&cands, all_paths)
}

/// The path of a relative Python import (`.mod`, `..pkg.mod`, `.`), seen from
/// `file`; `None` when it has no leading dot.
pub open spec fn py_relative(import: Seq<char>, file: Seq<char>) -> Option<Seq<char>> {
    let dots = skip_class_from(import, CharClass::Is('.'), 0);
    if dots == 0 {
        None
    } else {
        let parts = non_empty(split(dir_of(file), "/"@));
        let kept = pop_n(parts, dots - 1);
        let tail = trim_start_class(import, CharClass::Is('.'));
        let all = if tail.len() > 0 {
            kept + non_empty(split(tail, "."@))
        } else {
            kept
        };
        Some(join(all, "/"@))
    }
}

/// The path of a relative Python import.
pub fn python_relative_import_path(import: &[char], source_file: &[char]) -> (r: Option<Vec<char>>)
    ensures
        match r {
            Some(p) => py_relative(import@, source_file@) == Some(p@),
            None => py_relative(import@, source_file@) is None,
        },
{
    proof {
        lemma_skip_class_from(import@, CharClass::Is('.'), 0);
    }
    let dots = skip_class_exec(import, &CharClass::Is('.'), 0);
    if dots == 0 {
        return None;
    }
    let dir = dir_of_exec(source_file);
    let slash = literal("/");
    let parts = non_empty_exec(split_exec(dir.as_slice(), slash.as_slice()));
    let pl = parts.len();
    let keep = if dots - 1 >= pl { 0 } else { pl - (dots - 1) };
    let kept = copy_parts(&parts, 0, keep);
    let ghost partsv = views(parts@);
    assert(views(kept@) =~= pop_n(partsv, dots - 1));
    let tail = trim_start_class_exec(import, &CharClass::Is('.'));
    let all = if tail.len() > 0 {
        let pieces = non_empty_exec(split_exec(tail.as_slice(), literal(".").as_slice()));
        cat_parts(&kept, &pieces)
    } else {
        kept
    };
    Some(join_exec(&all, slash.as_slice()))
}

/// The candidate files for a Python module path.
pub open spec fn python_candidates(ap: Seq<char>) -> Seq<Seq<char>> {
    seq![ap + ".py"@, ap + "/__init__.py"@, "src/"@ + ap + ".py"@, "src/"@ + ap + "/__init__.py"@]
}

/// The file a Python import names.
pub open spec fn resolve_python(import: Seq<char>, file: Seq<char>, paths: Seq<Seq<char>>) -> Option<Seq<char>> {
    let as_path = if starts_with(import, "."@) {
        py_relative(import, file)
    } else {
        Some(replace_char(import, '.', '/'))
    };
    match as_path {
        None => None,
        Some(ap) => first_in(python_candidates(ap), paths),
    }
}

/// The file a Python import names.
pub fn resolve_python_import(import: &[char], source_file: &[char], all_paths: &Vec<Vec<char>>) -> (r: Option<Vec<char>>)
    ensures
        match r {
            Some(p) => resolve_python(import@, source_file@, views(all_paths@)) == Some(p@),
            None => resolve_python(import@, source_file@, views(all_paths@)) is None,
        },
{
    let dot = literal(".");
    let as_path = if starts_with_exec(import, dot.as_slice()) {
        match python_relative_import_path(import, source_file) {
            Some(p) => p,
            None => {
                return None;
            },
        }
    } else {
        replace_char_exec(import, '.', '/')
    };
    let py = literal(".py");
    let init = literal("/__init__.py");
    let src = literal("src/");
    let in_src = cat(src.as_slice(), as_path.as_slice());
    let cands: Vec<Vec<char>> = vec![
        cat(as_path.as_slice(), py.as_slice()),
        cat(as_path.as_slice(), init.as_slice()),
        cat(in_src.as_slice(), py.as_slice()),
        cat(in_src.as_slice(), init.as_slice()),
    ];
    assert(views(cands@) =~= python_candidates(as_path@));
    first_in_exec(&cands, all_paths)
}

/// The last segment of a `/`-separated path (all of it when there is no `/`).
pub open spec fn after_last_slash(s: Seq<char>) -> Seq<char> {
    let k = last_index_of(s, '/');
    if k >= 0 {
        s.subrange(k + 1, s.len() as int)
    } else {
        s
    }
}

/// A Go package named `last` plausibly lives in `p`: its directory is `last`
/// or ends in `/last`, or `p` holds `/last.go`.
pub open spec fn go_matches(p: Seq<char>, last: Seq<char>) -> bool {
    ||| (last_index_of(p, '/') >= 0 && (dir_of(p) == last || ends_with(dir_of(p), "/"@ + last)))
    ||| contains_seq(p, "/"@ + last + ".go"@)
}

/// The first of `paths` that matches the package `last`.
pub open spec fn first_go_match(paths: Seq<Seq<char>>, last: Seq<char>) -> Option<Seq<char>>
    decreases paths.len(),
{
    if paths.len() == 0 {
        None
    } else if go_matches(paths[0], last) {
        Some(paths[0])
    } else {
        first_go_match(paths.drop_first(), last)
    }
}

/// The file a Go import path plausibly names, by its last segment.
pub open spec fn resolve_go(import: Seq<char>, paths: Seq<Seq<char>>) -> Option<Seq<char>> {
    first_go_match(paths, after_last_slash(import))
}

fn go_matches_exec(p: &[char], last: &[char]) -> (r: bool)
    ensures
        r == go_matches(p@, last@),
{
    proof {
        lemma_last_index_before(p@, '/', p@.len() as int);
    }
    let slash = literal("/");
    let slash_last = cat(slash.as_slice(), last);
    let in_dir = match last_index_of_exec(p, '/') {
        Some(k) => {
            let parent = slice_range(p, 0, k);
            chars_eq(parent.as_slice(), last) || ends_with_exec(parent.as_slice(), slash_last.as_slice())
        },
        None => false,
    };
    if in_dir {
        return true;
    }
    let file_go = cat(slash_last.as_slice(), literal(".go").as_slice());
    contains_exec(p, file_go.as_slice())
}

/// The file a Go import path plausibly names.
pub fn resolve_go_import(import: &[char], all_paths: &Vec<Vec<char>>) -> (r: Option<Vec<char>>)
    ensures
        match r {
            Some(p) => resolve_go(import@, views(all_paths@)) == Some(p@),
            None => resolve_go(import@, views(all_paths@)) is None,
        },
{
    proof {
        lemma_last_index_before(import@, '/', import@.len() as int);
    }
    let il = import.len();
    let last = match last_index_of_exec(import, '/') {
        Some(k) => slice_range(import, k + 1, il),
        None => copy_chars(import),
    };
    let ghost pv = views(all_paths@);
    let mut i: usize = 0;
    assert(pv.skip(0) =~= pv);
    while i < all_paths.len()
        invariant
            i <= pv.len(),
            pv == views(all_paths@),
            last@ == after_last_slash(import@),
            resolve_go(import@, pv) == first_go_match(pv.skip(i as int), last@),
        decreases pv.len() - i,
    {
        assert(pv.skip(i as int).drop_first() =~= pv.skip(i + 1));
        assert(pv.skip(i as int)[0] == pv[i as int]);
        if go_matches_exec(all_paths[i].as_slice(), last.as_slice()) {
            return Some(copy_chars(all_paths[i].as_slice()));
        }
        i = i + 1;
    }
    None
}

} // verus!
