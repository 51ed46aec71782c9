//! The order of strings (by code point, as `Ord for str` compares them) and
//! sorted, duplicate-free string lists.
use vstd::prelude::*;
use crate::text::{chars_eq, chars_of};

verus! {

/// `a < b` in the order of `str`: lexicographic by code point.
pub open spec fn seq_lt(a: Seq<char>, b: Seq<char>) -> bool
    decreases a.len(),
{
    if a.len() == 0 {
        b.len() > 0
    } else if b.len() == 0 {
        false
    } else if a[0] != b[0] {
        a[0] < b[0]
    } else {
        seq_lt(a.drop_first(), b.drop_first())
    }
}

/// Every element is below every later one.
pub open spec fn strictly_sorted(s: Seq<Seq<char>>) -> bool {
    forall|i: int, j: int| 0 <= i < j < s.len() ==> seq_lt(s[i], s[j])
}

/// The character sequences of a sequence of string slices.
pub open spec fn strs_view(v: Seq<&str>) -> Seq<Seq<char>> {
    v.map_values(|s: &str| s@)
}

/// The views of a sequence of strings.
pub open spec fn str_views(v: Seq<String>) -> Seq<Seq<char>> {
    v.map_values(|s: String| s@)
}

pub proof fn lemma_lt_irreflexive(a: Seq<char>)
    ensures
        !seq_lt(a, a),
    decreases a.len(),
{
    if a.len() > 0 {
        lemma_lt_irreflexive(a.drop_first());
    }
}

pub proof fn lemma_lt_asymmetric(a: Seq<char>, b: Seq<char>)
    ensures
        seq_lt(a, b) ==> !seq_lt(b, a),
    decreases a.len(),
{
    if a.len() > 0 && b.len() > 0 && a[0] == b[0] {
        lemma_lt_asymmetric(a.drop_first(), b.drop_first());
    }
}

pub proof fn lemma_lt_transitive(a: Seq<char>, b: Seq<char>, c: Seq<char>)
    requires
        seq_lt(a, b),
        seq_lt(b, c),
    ensures
        seq_lt(a, c),
    decreases a.len(),
{
    if a.len() > 0 && b.len() > 0 && c.len() > 0 && a[0] == b[0] && b[0] == c[0] {
        lemma_lt_transitive(a.drop_first(), b.drop_first(), c.drop_first());
    }
}

pub proof fn lemma_lt_total(a: Seq<char>, b: Seq<char>)
    ensures
        a == b || seq_lt(a, b) || seq_lt(b, a),
    decreases a.len(),
{
    if a.len() > 0 && b.len() > 0 && a[0] == b[0] {
        lemma_lt_total(a.drop_first(), b.drop_first());
        if a.drop_first() == b.drop_first() {
            assert(a =~= seq![a[0]] + a.drop_first());
            assert(b =~= seq![b[0]] + b.drop_first());
        }
    } else if a.len() == 0 && b.len() == 0 {
        assert(a =~= b);
    }
}

/// Two strictly sorted sequences that hold the same elements are equal.
pub proof fn lemma_sorted_same_set_equal(s: Seq<Seq<char>>, t: Seq<Seq<char>>)
    requires
        strictly_sorted(s),
        strictly_sorted(t),
        s.to_set() == t.to_set(),
    ensures
        s == t,
    decreases s.len(),
{
    if s.len() == 0 {
        if t.len() > 0 {
            assert(t.to_set().contains(t[0]));
        }
        assert(s =~= t);
    } else if t.len() == 0 {
        assert(s.to_set().contains(s[0]));
    } else {
        // The least elements agree.
        let a = s[0];
        let b = t[0];
        assert(s.to_set().contains(a));
        assert(t.to_set().contains(b));
        let ia = choose|k: int| 0 <= k < t.len() && t[k] == a;
        let ib = choose|k: int| 0 <= k < s.len() && s[k] == b;
        if a != b {
            if ia > 0 {
                assert(seq_lt(b, a));
            }
            if ib > 0 {
                assert(seq_lt(a, b));
            }
            lemma_lt_asymmetric(a, b);
            lemma_lt_irreflexive(a);
        }
        assert(a == b);
        let s1 = s.drop_first();
        let t1 = t.drop_first();
        assert forall|x: Seq<char>| s1.to_set().contains(x) implies t1.to_set().contains(x) by {
            let k = choose|k: int| 0 <= k < s1.len() && s1[k] == x;
            assert(s.to_set().contains(x));
            let m = choose|m: int| 0 <= m < t.len() && t[m] == x;
            assert(seq_lt(a, x));
            if m == 0 {
                lemma_lt_irreflexive(a);
            }
            assert(t1[m - 1] == x);
        }
        assert forall|x: Seq<char>| t1.to_set().contains(x) implies s1.to_set().contains(x) by {
            let k = choose|k: int| 0 <= k < t1.len() && t1[k] == x;
            assert(t.to_set().contains(x));
            let m = choose|m: int| 0 <= m < s.len() && s[m] == x;
            assert(seq_lt(b, x));
            if m == 0 {
                lemma_lt_irreflexive(b);
            }
            assert(s1[m - 1] == x);
        }
        assert(s1.to_set() =~= t1.to_set());
        lemma_sorted_same_set_equal(s1, t1);
        assert(s =~= seq![a] + s1);
        assert(t =~= seq![b] + t1);
    }
}

/// Whether `a < b` in the order of `str`.
pub fn chars_lt(a: &[char], b: &[char]) -> (r: bool)
    ensures
        r == seq_lt(a@, b@),
{
    let mut i: usize = 0;
    assert(a@.skip(0) =~= a@);
    assert(b@.skip(0) =~= b@);
    while i < a.len() && i < b.len()
        invariant
            i <= a@.len(),
            i <= b@.len(),
            seq_lt(a@, b@) == seq_lt(a@.skip(i as int), b@.skip(i as int)),
        decreases a@.len() - i,
    {
        assert(a@.skip(i as int).drop_first() =~= a@.skip(i + 1));
        assert(b@.skip(i as int).drop_first() =~= b@.skip(i + 1));
        if a[i] != b[i] {
            return a[i] < b[i];
        }
        i = i + 1;
    }
    i == a.len() && i < b.len()
}

/// Whether `a < b` in the order of `str`.
pub fn str_lt(a: &str, b: &str) -> (r: bool)
    ensures
        r == seq_lt(a@, b@),
{
    let ac = chars_of(a);
    let bc = chars_of(b);
    chars_lt(ac.as_slice(), bc.as_slice())
}

/// Whether two strings hold the same characters.
pub fn str_eq(a: &str, b: &str) -> (r: bool)
    ensures
        r == (a@ == b@),
{
    let ac = chars_of(a);
    let bc = chars_of(b);
    chars_eq(ac.as_slice(), bc.as_slice())
}

/// Adds `x` to a strictly sorted list unless it is there already.
pub fn insert_sorted_unique(v: &mut Vec<String>, x: String)
    requires
        strictly_sorted(str_views(old(v)@)),
    ensures
        strictly_sorted(str_views(final(v)@)),
        str_views(final(v)@).to_set() == str_views(old(v)@).to_set().insert(x@),
{
    let ghost old_views = str_views(v@);
    let mut i: usize = 0;
    while i < v.len() && str_lt(v[i].as_str(), x.as_str())
        invariant
            i <= v@.len(),
            v@ == old(v)@,
            old_views == str_views(v@),
            forall|j: int| 0 <= j < i ==> seq_lt(old_views[j], x@),
        decreases v@.len() - i,
    {
        i = i + 1;
    }
    if i < v.len() && str_eq(v[i].as_str(), x.as_str()) {
        assert(old_views.to_set().insert(x@) =~= old_views.to_set()) by {
            assert(old_views[i as int] == x@);
        }
        return;
    }
    proof {
        if i < v@.len() {
            lemma_lt_total(old_views[i as int], x@);
            assert(seq_lt(x@, old_views[i as int]));
            assert forall|j: int| i < j < old_views.len() implies seq_lt(x@, old_views[j]) by {
                lemma_lt_transitive(x@, old_views[i as int], old_views[j]);
            }
        }
    }
    let ghost xv = x@;
    v.insert(i, x);
    let ghost new_views = str_views(v@);
    assert(new_views =~= old_views.insert(i as int, xv));
    assert forall|a: int, b: int| 0 <= a < b < new_views.len() implies seq_lt(new_views[a], new_views[b]) by {
        if a < i && b == i {
        } else if a < i && b > i {
            lemma_lt_transitive(new_views[a], xv, new_views[b]);
        } else {
        }
    }
    assert(new_views.to_set() =~= old_views.to_set().insert(xv)) by {
        assert forall|y: Seq<char>| new_views.to_set().contains(y) implies old_views.to_set().insert(xv).contains(y) by {
            let k = choose|k: int| 0 <= k < new_views.len() && new_views[k] == y;
            if k < i {
                assert(old_views[k] == y);
            } else if k > i {
                assert(old_views[k - 1] == y);
            }
        }
        assert forall|y: Seq<char>| old_views.to_set().insert(xv).contains(y) implies new_views.to_set().contains(y) by {
            if y == xv {
                assert(new_views[i as int] == y);
            } else {
                let k = choose|k: int| 0 <= k < old_views.len() && old_views[k] == y;
                if k < i {
                    assert(new_views[k] == y);
                } else {
                    assert(new_views[k + 1] == y);
                }
            }
        }
    }
}

/// The distinct strings of `v` in increasing order (`sort` then `dedup`).
pub fn sort_dedup(v: &Vec<String>) -> (r: Vec<String>)
    ensures
        strictly_sorted(str_views(r@)),
        str_views(r@).to_set() == str_views(v@).to_set(),
{
    let mut r: Vec<String> = Vec::new();
    let mut i: usize = 0;
    while i < v.len()
        invariant
            i <= v@.len(),
            strictly_sorted(str_views(r@)),
            str_views(r@).to_set() == str_views(v@.subrange(0, i as int)).to_set(),
        decreases v@.len() - i,
    {
        insert_sorted_unique(&mut r, v[i].clone());
        proof {
            let prefix = v@.subrange(0, i + 1);
            assert(str_views(prefix) =~= str_views(v@.subrange(0, i as int)).push(v@[i as int]@));
            str_views(v@.subrange(0, i as int)).lemma_push_to_set_commute(v@[i as int]@);
        }
        i = i + 1;
    }
    assert(v@.subrange(0, v@.len() as int) =~= v@);
    r
}

} // verus!
