//! Character-sequence utilities on which path and import handling is built.
//!
//! Every operation is stated over `Seq<char>`, the view of a `str` or a
//! `String`, and carried out on `Vec<char>` or on slices of `char`.
use vstd::prelude::*;

verus! {

// ---------------------------------------------------------------------------
// Specifications
// ---------------------------------------------------------------------------

/// `p` occurs in `s` starting at index `i`.
pub open spec fn occurs_at(s: Seq<char>, p: Seq<char>, i: int) -> bool {
    &&& 0 <= i
    &&& i + p.len() <= s.len()
    &&& s.subrange(i, i + p.len()) == p
}

/// The first index at or after `i` where `p` occurs in `s`, or -1.
pub open spec fn find_from(s: Seq<char>, p: Seq<char>, i: int) -> int
    decreases s.len() + 1 - i,
{
    if i < 0 || i + p.len() > s.len() {
        -1
    } else if s.subrange(i, i + p.len()) == p {
        i
    } else {
        find_from(s, p, i + 1)
    }
}

/// The first index where `p` occurs in `s`, or -1.
pub open spec fn find(s: Seq<char>, p: Seq<char>) -> int {
    find_from(s, p, 0)
}

/// `p` occurs somewhere in `s`.
pub open spec fn contains_seq(s: Seq<char>, p: Seq<char>) -> bool {
    exists|i: int| occurs_at(s, p, i)
}

pub open spec fn starts_with(s: Seq<char>, p: Seq<char>) -> bool {
    p.len() <= s.len() && s.subrange(0, p.len() as int) == p
}

pub open spec fn ends_with(s: Seq<char>, p: Seq<char>) -> bool {
    p.len() <= s.len() && s.subrange(s.len() - p.len(), s.len() as int) == p
}

/// `str::split` with a non-empty separator: the pieces between the
/// leftmost non-overlapping occurrences of `sep`.
pub open spec fn split(s: Seq<char>, sep: Seq<char>) -> Seq<Seq<char>>
    decreases s.len(),
{
    let i = find(s, sep);
    if sep.len() == 0 || i < 0 {
        seq![s]
    } else {
        proof {
            lemma_find_from(s, sep, 0);
        }
        seq![s.subrange(0, i)] + split(s.subrange(i + sep.len(), s.len() as int), sep)
    }
}

/// The pieces joined with `sep` between neighbours.
pub open spec fn join(parts: Seq<Seq<char>>, sep: Seq<char>) -> Seq<char>
    decreases parts.len(),
{
    if parts.len() == 0 {
        Seq::empty()
    } else if parts.len() == 1 {
        parts[0]
    } else {
        join(parts.drop_last(), sep) + sep + parts.last()
    }
}

/// The views of a sequence of character vectors.
pub open spec fn views(v: Seq<Vec<char>>) -> Seq<Seq<char>> {
    v.map_values(|x: Vec<char>| x@)
}

/// The pieces that are not empty, in order.
pub open spec fn non_empty(parts: Seq<Seq<char>>) -> Seq<Seq<char>> {
    parts.filter(|p: Seq<char>| p.len() > 0)
}

/// The last index before `n` that holds `c`, or -1.
pub open spec fn last_index_before(s: Seq<char>, c: char, n: int) -> int
    decreases n,
{
    if n <= 0 {
        -1
    } else if s[n - 1] == c {
        n - 1
    } else {
        last_index_before(s, c, n - 1)
    }
}

/// The last index of `c` in `s`, or -1.
pub open spec fn last_index_of(s: Seq<char>, c: char) -> int {
    last_index_before(s, c, s.len() as int)
}

/// Unicode `White_Space`, as `char::is_whitespace` decides it.
pub open spec fn is_ws(c: char) -> bool {
    let u = c as u32;
    ||| u == 0x20
    ||| 0x09 <= u <= 0x0D
    ||| u == 0x85
    ||| u == 0xA0
    ||| u == 0x1680
    ||| 0x2000 <= u <= 0x200A
    ||| u == 0x2028
    ||| u == 0x2029
    ||| u == 0x202F
    ||| u == 0x205F
    ||| u == 0x3000
}

/// A class of characters to skip or trim.
pub enum CharClass {
    Whitespace,
    NotWhitespace,
    Is(char),
}

pub open spec fn in_class(cls: CharClass, c: char) -> bool {
    match cls {
        CharClass::Whitespace => is_ws(c),
        CharClass::NotWhitespace => !is_ws(c),
        CharClass::Is(d) => c == d,
    }
}

/// The first index at or after `i` whose character is not in `cls`
/// (the length of `s` if there is none).
pub open spec fn skip_class_from(s: Seq<char>, cls: CharClass, i: int) -> int
    decreases s.len() - i,
{
    if i < 0 || i >= s.len() {
        if i < 0 { 0 } else { s.len() as int }
    } else if in_class(cls, s[i]) {
        skip_class_from(s, cls, i + 1)
    } else {
        i
    }
}

/// The index just after the last character before `n` that is not in `cls`
/// (0 if there is none).
pub open spec fn back_skip_class(s: Seq<char>, cls: CharClass, n: int) -> int
    decreases n,
{
    if n <= 0 {
        0
    } else if in_class(cls, s[n - 1]) {
        back_skip_class(s, cls, n - 1)
    } else {
        n
    }
}

/// `s` without its leading characters of class `cls`.
pub open spec fn trim_start_class(s: Seq<char>, cls: CharClass) -> Seq<char> {
    s.subrange(skip_class_from(s, cls, 0), s.len() as int)
}

/// `s` without its trailing characters of class `cls`.
pub open spec fn trim_end_class(s: Seq<char>, cls: CharClass) -> Seq<char> {
    s.subrange(0, back_skip_class(s, cls, s.len() as int))
}

/// `str::trim`.
pub open spec fn trim(s: Seq<char>) -> Seq<char> {
    trim_end_class(trim_start_class(s, CharClass::Whitespace), CharClass::Whitespace)
}

/// `s` with every `from` replaced by `to`.
pub open spec fn replace_char(s: Seq<char>, from: char, to: char) -> Seq<char> {
    s.map_values(|c: char| if c == from { to } else { c })
}

// ---------------------------------------------------------------------------
// Lemmas
// ---------------------------------------------------------------------------

/// What `find_from` returns: a first occurrence at or after `i`, or -1 when
/// there is none.
pub proof fn lemma_find_from(s: Seq<char>, p: Seq<char>, i: int)
    requires
        0 <= i,
    ensures
        find_from(s, p, i) == -1 || (i <= find_from(s, p, i) && occurs_at(s, p, find_from(s, p, i))),
        forall|j: int|
            i <= j && (find_from(s, p, i) == -1 || j < find_from(s, p, i)) ==> !occurs_at(s, p, j),
    decreases s.len() + 1 - i,
{
    if i + p.len() > s.len() {
    } else if s.subrange(i, i + p.len()) == p {
    } else {
        lemma_find_from(s, p, i + 1);
    }
}

/// `find` is -1 exactly when `p` does not occur in `s`.
pub proof fn lemma_find_contains(s: Seq<char>, p: Seq<char>)
    ensures
        (find(s, p) >= 0) == contains_seq(s, p),
        find(s, p) >= 0 ==> occurs_at(s, p, find(s, p)),
{
    lemma_find_from(s, p, 0);
}

pub proof fn lemma_last_index_before(s: Seq<char>, c: char, n: int)
    requires
        n <= s.len(),
    ensures
        last_index_before(s, c, n) == -1 || (0 <= last_index_before(s, c, n) < n && s[last_index_before(
            s,
            c,
            n,
        )] == c),
        forall|j: int| last_index_before(s, c, n) < j < n ==> s[j] != c,
    decreases n,
{
    if n > 0 && s[n - 1] != c {
        lemma_last_index_before(s, c, n - 1);
    }
}

pub proof fn lemma_skip_class_from(s: Seq<char>, cls: CharClass, i: int)
    requires
        0 <= i <= s.len(),
    ensures
        i <= skip_class_from(s, cls, i) <= s.len(),
        forall|j: int| i <= j < skip_class_from(s, cls, i) ==> in_class(cls, s[j]),
        skip_class_from(s, cls, i) < s.len() ==> !in_class(cls, s[skip_class_from(s, cls, i)]),
    decreases s.len() - i,
{
    if i < s.len() && in_class(cls, s[i]) {
        lemma_skip_class_from(s, cls, i + 1);
    }
}

pub proof fn lemma_back_skip_class(s: Seq<char>, cls: CharClass, n: int)
    requires
        0 <= n <= s.len(),
    ensures
        0 <= back_skip_class(s, cls, n) <= n,
        forall|j: int| back_skip_class(s, cls, n) <= j < n ==> in_class(cls, s[j]),
        back_skip_class(s, cls, n) > 0 ==> !in_class(cls, s[back_skip_class(s, cls, n) - 1]),
    decreases n,
{
    if n > 0 && in_class(cls, s[n - 1]) {
        lemma_back_skip_class(s, cls, n - 1);
    }
}

// ---------------------------------------------------------------------------
// Executable operations
// ---------------------------------------------------------------------------

/// Copies the characters of `s` into a vector.
pub fn chars_of(s: &str) -> (v: Vec<char>)
    ensures
        v@ == s@,
{
    broadcast use vstd::string::group_string_axioms;

    let mut v: Vec<char> = Vec::new();
    for c in it: s.chars()
        invariant
            v@ == it.seq().take(it.index() as int),
    {
        v.push(c);
    }
    assert(v@ =~= s@);
    v
}

/// `String::push`: appends one character to the end of the string.
#[verifier::external_body]
fn push_char(s: &mut String, c: char)
    ensures
        final(s)@ == old(s)@.push(c),
{
    s.push(c);
}

/// Builds a `String` from characters.
pub fn string_of(v: &[char]) -> (s: String)
    ensures
        s@ == v@,
{
    let mut s = String::new();
    let mut i: usize = 0;
    while i < v.len()
        invariant
            i <= v@.len(),
            s@ == v@.subrange(0, i as int),
        decreases v@.len() - i,
    {
        push_char(&mut s, v[i]);
        i = i + 1;
        assert(s@ =~= v@.subrange(0, i as int));
    }
    assert(v@.subrange(0, v@.len() as int) =~= v@);
    s
}

/// A copy of `s[a..b]`.
pub fn slice_range(s: &[char], a: usize, b: usize) -> (r: Vec<char>)
    requires
        a <= b <= s@.len(),
    ensures
        r@ == s@.subrange(a as int, b as int),
{
    let mut r: Vec<char> = Vec::new();
    let mut i = a;
    while i < b
        invariant
            a <= i <= b <= s@.len(),
            r@ == s@.subrange(a as int, i as int),
        decreases b - i,
    {
        r.push(s[i]);
        i = i + 1;
        assert(r@ =~= s@.subrange(a as int, i as int));
    }
    r
}

/// A copy of `s`.
pub fn copy_chars(s: &[char]) -> (r: Vec<char>)
    ensures
        r@ == s@,
{
    let r = slice_range(s, 0, s.len());
    assert(r@ =~= s@);
    r
}

/// A copy of `parts[a..b]`.
pub fn copy_parts(parts: &Vec<Vec<char>>, a: usize, b: usize) -> (r: Vec<Vec<char>>)
    requires
        a <= b <= parts@.len(),
    ensures
        views(r@) == views(parts@).subrange(a as int, b as int),
{
    let mut r: Vec<Vec<char>> = Vec::new();
    let mut i = a;
    while i < b
        invariant
            a <= i <= b <= parts@.len(),
            views(r@) == views(parts@).subrange(a as int, i as int),
        decreases b - i,
    {
        let ghost before = views(r@);
        let c = copy_chars(parts[i].as_slice());
        assert(c@ == views(parts@)[i as int]);
        r.push(c);
        assert(views(r@) =~= before.push(views(parts@)[i as int]));
        i = i + 1;
        assert(views(r@) =~= views(parts@).subrange(a as int, i as int));
    }
    r
}

/// `a` followed by `b`.
pub fn cat(a: &[char], b: &[char]) -> (r: Vec<char>)
    ensures
        r@ == a@ + b@,
{
    let mut r: Vec<char> = Vec::new();
    let mut i: usize = 0;
    while i < a.len()
        invariant
            i <= a@.len(),
            r@ == a@.subrange(0, i as int),
        decreases a@.len() - i,
    {
        r.push(a[i]);
        i = i + 1;
        assert(r@ =~= a@.subrange(0, i as int));
    }
    let mut j: usize = 0;
    while j < b.len()
        invariant
            j <= b@.len(),
            r@ == a@ + b@.subrange(0, j as int),
        decreases b@.len() - j,
    {
        r.push(b[j]);
        j = j + 1;
        assert(r@ =~= a@ + b@.subrange(0, j as int));
    }
    assert(b@.subrange(0, b@.len() as int) =~= b@);
    r
}

/// Whether `a` and `b` hold the same characters.
pub fn chars_eq(a: &[char], b: &[char]) -> (r: bool)
    ensures
        r == (a@ == b@),
{
    if a.len() != b.len() {
        return false;
    }
    let mut i: usize = 0;
    while i < a.len()
        invariant
            a@.len() == b@.len(),
            i <= a@.len(),
            forall|j: int| 0 <= j < i ==> a@[j] == b@[j],
        decreases a@.len() - i,
    {
        if a[i] != b[i] {
            return false;
        }
        i = i + 1;
    }
    assert(a@ =~= b@);
    true
}

/// Whether `p` occurs in `s` at index `i`.
pub fn occurs_at_exec(s: &[char], p: &[char], i: usize) -> (r: bool)
    ensures
        r == occurs_at(s@, p@, i as int),
{
    if i > s.len() || p.len() > s.len() - i {
        return false;
    }
    let mut k: usize = 0;
    while k < p.len()
        invariant
            s.len() == s@.len(),
            i <= s@.len(),
            p@.len() <= s@.len(),
            i + p@.len() <= s@.len(),
            k <= p@.len(),
            forall|j: int| 0 <= j < k ==> s@[i + j] == p@[j],
        decreases p@.len() - k,
    {
        assert(i + k < s@.len());
        if s[i + k] != p[k] {
            assert(s@.subrange(i as int, i + p@.len())[k as int] != p@[k as int]);
            return false;
        }
        k = k + 1;
    }
    assert(s@.subrange(i as int, i + p@.len()) =~= p@);
    true
}

/// `str::starts_with`.
pub fn starts_with_exec(s: &[char], p: &[char]) -> (r: bool)
    ensures
        r == starts_with(s@, p@),
{
    occurs_at_exec(s, p, 0)
}

/// `str::ends_with`.
pub fn ends_with_exec(s: &[char], p: &[char]) -> (r: bool)
    ensures
        r == ends_with(s@, p@),
{
    if p.len() > s.len() {
        return false;
    }
    occurs_at_exec(s, p, s.len() - p.len())
}

/// The first occurrence of `p` in `s`.
pub fn find_exec(s: &[char], p: &[char]) -> (r: Option<usize>)
    ensures
        match r {
            Some(i) => i == find(s@, p@),
            None => find(s@, p@) == -1,
        },
{
    let mut i: usize = 0;
    while i <= s.len()
        invariant
            i <= s@.len() + 1,
            find(s@, p@) == find_from(s@, p@, i as int),
        decreases s@.len() + 1 - i,
    {
        if p.len() > s.len() - i {
            return None;
        }
        if occurs_at_exec(s, p, i) {
            return Some(i);
        }
        if i == s.len() {
            assert(find_from(s@, p@, i as int + 1) == -1);
            return None;
        }
        i = i + 1;
    }
    None
}

/// Whether `p` occurs somewhere in `s`.
pub fn contains_exec(s: &[char], p: &[char]) -> (r: bool)
    ensures
        r == contains_seq(s@, p@),
{
    proof {
        lemma_find_contains(s@, p@);
    }
    match find_exec(s, p) {
        Some(_) => true,
        None => false,
    }
}

/// The last index of `c` in `s`.
pub fn last_index_of_exec(s: &[char], c: char) -> (r: Option<usize>)
    ensures
        match r {
            Some(i) => i == last_index_of(s@, c),
            None => last_index_of(s@, c) == -1,
        },
{
    let mut n: usize = s.len();
    while n > 0
        invariant
            n <= s@.len(),
            last_index_of(s@, c) == last_index_before(s@, c, n as int),
        decreases n,
    {
        if s[n - 1] == c {
            return Some(n - 1);
        }
        n = n - 1;
    }
    None
}

/// `str::split` with a non-empty separator.
pub fn split_exec(s: &[char], sep: &[char]) -> (r: Vec<Vec<char>>)
    ensures
        views(r@) == split(s@, sep@),
{
    if sep.len() == 0 {
        let mut parts: Vec<Vec<char>> = Vec::new();
        let whole = slice_range(s, 0, s.len());
        assert(whole@ =~= s@);
        parts.push(whole);
        assert(views(parts@) =~= seq![s@]);
        return parts;
    }
    let mut parts: Vec<Vec<char>> = Vec::new();
    let mut rest: Vec<char> = slice_range(s, 0, s.len());
    assert(rest@ =~= s@);
    loop
        invariant
            sep@.len() > 0,
            views(parts@) + split(rest@, sep@) == split(s@, sep@),
        decreases rest@.len(),
    {
        let rl = rest.len();
        match find_exec(rest.as_slice(), sep) {
            None => {
                let ghost before = views(parts@);
                let ghost rv = rest@;
                assert(split(rv, sep@) == seq![rv]);
                parts.push(rest);
                assert(parts@.last()@ == rv);
                assert(views(parts@) =~= before.push(rv));
                assert(views(parts@) =~= before + split(rv, sep@));
                return parts;
            },
            Some(i) => {
                proof {
                    lemma_find_from(rest@, sep@, 0);
                }
                assert(i + sep@.len() <= rl);
                let piece = slice_range(rest.as_slice(), 0, i);
                let next = slice_range(rest.as_slice(), i + sep.len(), rl);
                let ghost before = views(parts@);
                let ghost old_rest = rest@;
                let ghost pv = piece@;
                assert(split(old_rest, sep@) == seq![pv] + split(next@, sep@));
                parts.push(piece);
                assert(parts@.last()@ == pv);
                assert(views(parts@) =~= before.push(pv));
                assert(views(parts@) + split(next@, sep@) =~= before + split(old_rest, sep@));
                rest = next;
            },
        }
    }
}

/// The pieces joined with `sep`.
pub fn join_exec(parts: &Vec<Vec<char>>, sep: &[char]) -> (r: Vec<char>)
    ensures
        r@ == join(views(parts@), sep@),
{
    let ghost all = views(parts@);
    let mut r: Vec<char> = Vec::new();
    let mut i: usize = 0;
    while i < parts.len()
        invariant
            all == views(parts@),
            i <= all.len(),
            r@ == join(all.subrange(0, i as int), sep@),
        decreases all.len() - i,
    {
        let ghost before = all.subrange(0, i as int);
        assert(all.subrange(0, i + 1).drop_last() =~= before);
        if i > 0 {
            r = cat(r.as_slice(), sep);
        }
        r = cat(r.as_slice(), parts[i].as_slice());
        i = i + 1;
        assert(r@ =~= join(all.subrange(0, i as int), sep@));
    }
    assert(all.subrange(0, all.len() as int) =~= all);
    r
}

/// The pieces that are not empty.
pub fn non_empty_exec(parts: Vec<Vec<char>>) -> (r: Vec<Vec<char>>)
    ensures
        views(r@) == non_empty(views(parts@)),
{
    let ghost all = views(parts@);
    let mut r: Vec<Vec<char>> = Vec::new();
    let mut i: usize = 0;
    while i < parts.len()
        invariant
            all == views(parts@),
            i <= all.len(),
            views(r@) == non_empty(all.subrange(0, i as int)),
        decreases all.len() - i,
    {
        let ghost before = views(r@);
        assert(all.subrange(0, i + 1).drop_last() =~= all.subrange(0, i as int));
        reveal_with_fuel(Seq::filter, 1);
        if parts[i].len() > 0 {
            let piece = slice_range(parts[i].as_slice(), 0, parts[i].len());
            assert(piece@ =~= all[i as int]);
            r.push(piece);
            assert(views(r@) =~= before.push(all[i as int]));
        }
        i = i + 1;
    }
    assert(all.subrange(0, all.len() as int) =~= all);
    r
}

/// The first index at or after `i` whose character is not in `cls`.
pub fn skip_class_exec(s: &[char], cls: &CharClass, i: usize) -> (r: usize)
    requires
        i <= s@.len(),
    ensures
        r == skip_class_from(s@, *cls, i as int),
{
    let mut k = i;
    while k < s.len()
        invariant
            i <= k <= s@.len(),
            skip_class_from(s@, *cls, i as int) == skip_class_from(s@, *cls, k as int),
        decreases s@.len() - k,
    {
        if !in_class_exec(cls, s[k]) {
            return k;
        }
        k = k + 1;
    }
    k
}

/// The index just after the last character before `n` that is not in `cls`.
pub fn back_skip_class_exec(s: &[char], cls: &CharClass, n: usize) -> (r: usize)
    requires
        n <= s@.len(),
    ensures
        r == back_skip_class(s@, *cls, n as int),
{
    let mut k = n;
    while k > 0
        invariant
            k <= n <= s@.len(),
            back_skip_class(s@, *cls, n as int) == back_skip_class(s@, *cls, k as int),
        decreases k,
    {
        if !in_class_exec(cls, s[k - 1]) {
            return k;
        }
        k = k - 1;
    }
    0
}

/// Whether `c` is Unicode white space.
pub fn is_ws_exec(c: char) -> (r: bool)
    ensures
        r == is_ws(c),
{
    let u = c as u32;
    u == 0x20 || (0x09 <= u && u <= 0x0D) || u == 0x85 || u == 0xA0 || u == 0x1680 || (0x2000
        <= u && u <= 0x200A) || u == 0x2028 || u == 0x2029 || u == 0x202F || u == 0x205F || u
        == 0x3000
}

pub fn in_class_exec(cls: &CharClass, c: char) -> (r: bool)
    ensures
        r == in_class(*cls, c),
{
    match cls {
        CharClass::Whitespace => is_ws_exec(c),
        CharClass::NotWhitespace => !is_ws_exec(c),
        CharClass::Is(d) => c == *d,
    }
}

/// `s` without its leading characters of class `cls`.
pub fn trim_start_class_exec(s: &[char], cls: &CharClass) -> (r: Vec<char>)
    ensures
        r@ == trim_start_class(s@, *cls),
{
    proof {
        lemma_skip_class_from(s@, *cls, 0);
    }
    let a = skip_class_exec(s, cls, 0);
    slice_range(s, a, s.len())
}

/// `s` without its trailing characters of class `cls`.
pub fn trim_end_class_exec(s: &[char], cls: &CharClass) -> (r: Vec<char>)
    ensures
        r@ == trim_end_class(s@, *cls),
{
    proof {
        lemma_back_skip_class(s@, *cls, s@.len() as int);
    }
    let b = back_skip_class_exec(s, cls, s.len());
    slice_range(s, 0, b)
}

/// `str::trim`.
pub fn trim_exec(s: &[char]) -> (r: Vec<char>)
    ensures
        r@ == trim(s@),
{
    let t = trim_start_class_exec(s, &CharClass::Whitespace);
    trim_end_class_exec(t.as_slice(), &CharClass::Whitespace)
}

/// `s` with every `from` replaced by `to`.
pub fn replace_char_exec(s: &[char], from: char, to: char) -> (r: Vec<char>)
    ensures
        r@ == replace_char(s@, from, to),
{
    let mut r: Vec<char> = Vec::new();
    let mut i: usize = 0;
    while i < s.len()
        invariant
            i <= s@.len(),
            r@ == replace_char(s@.subrange(0, i as int), from, to),
        decreases s@.len() - i,
    {
        let c = s[i];
        if c == from {
            r.push(to);
        } else {
            r.push(c);
        }
        i = i + 1;
        assert(r@ =~= replace_char(s@.subrange(0, i as int), from, to));
    }
    assert(s@.subrange(0, s@.len() as int) =~= s@);
    r
}

/// Whether `x` is one of `items`.
pub fn contains_item(items: &Vec<Vec<char>>, x: &[char]) -> (r: bool)
    ensures
        r == views(items@).contains(x@),
{
    let mut i: usize = 0;
    while i < items.len()
        invariant
            i <= items@.len(),
            forall|j: int| 0 <= j < i ==> views(items@)[j] != x@,
        decreases items@.len() - i,
    {
        if chars_eq(items[i].as_slice(), x) {
            assert(views(items@)[i as int] == x@);
            return true;
        }
        i = i + 1;
    }
    false
}


/// The decimal digit for `d` (below ten).
pub open spec fn digit_char(d: nat) -> char {
    if d == 0 { '0' }
    else if d == 1 { '1' }
    else if d == 2 { '2' }
    else if d == 3 { '3' }
    else if d == 4 { '4' }
    else if d == 5 { '5' }
    else if d == 6 { '6' }
    else if d == 7 { '7' }
    else if d == 8 { '8' }
    else { '9' }
}

/// The decimal notation of `n`, without leading zeros.
pub open spec fn decimal(n: nat) -> Seq<char>
    decreases n,
{
    if n < 10 {
        seq![digit_char(n)]
    } else {
        decimal(n / 10) + seq![digit_char(n % 10)]
    }
}

fn digit_exec(d: usize) -> (c: char)
    requires
        d < 10,
    ensures
        c == digit_char(d as nat),
{
    if d == 0 { '0' }
    else if d == 1 { '1' }
    else if d == 2 { '2' }
    else if d == 3 { '3' }
    else if d == 4 { '4' }
    else if d == 5 { '5' }
    else if d == 6 { '6' }
    else if d == 7 { '7' }
    else if d == 8 { '8' }
    else { '9' }
}

/// The decimal notation of `n` (what `Display` prints for an integer).
pub fn decimal_chars(n: usize) -> (r: Vec<char>)
    ensures
        r@ == decimal(n as nat),
{
    let mut m = n;
    let mut acc: Vec<char> = Vec::new();
    loop
        invariant_except_break
            m > 0 || (m == n && acc@.len() == 0),
            decimal(n as nat) == decimal(m as nat) + acc@,
        ensures
            acc@ == decimal(n as nat),
        decreases m,
    {
        let d = m % 10;
        let mut one: Vec<char> = Vec::new();
        one.push(digit_exec(d));
        acc = cat(one.as_slice(), acc.as_slice());
        if m < 10 {
            assert(decimal(m as nat) =~= seq![digit_char(m as nat)]);
            break;
        }
        assert(decimal(m as nat) =~= decimal((m / 10) as nat) + seq![digit_char((m % 10) as nat)]);
        m = m / 10;
    }
    acc
}

} // verus!
