//! Index freshness: whether a saved graph still matches the files on disk.
use vstd::prelude::*;
use crate::graph::{clone_strings, CodeGraph, IndexedFileMeta, INDEX_SCHEMA_VERSION};
use crate::order::{sort_dedup, str_eq, str_views, strictly_sorted};
use crate::text::{cat, chars_of, decimal, decimal_chars, join, join_exec, string_of, views};

verus! {

/// How a saved index compares with the source tree.
pub struct IndexFreshness {
    pub has_metadata: bool,
    pub schema_version: Option<u32>,
    pub expected_schema_version: u32,
    pub generated_at_unix_ms: Option<u64>,
    pub stale: bool,
    pub schema_mismatch: bool,
    /// Files whose modification time or size changed, in increasing order.
    pub changed_files: Vec<String>,
    /// Indexed files that are gone, in increasing order.
    pub missing_files: Vec<String>,
    /// Files that the index does not know, in increasing order.
    pub new_files: Vec<String>,
}

/// The (modification time, size) recorded for path `p`: the last record with
/// that path wins.
pub open spec fn meta_lookup(ms: Seq<IndexedFileMeta>, p: Seq<char>) -> Option<(u64, u64)>
    decreases ms.len(),
{
    if ms.len() == 0 {
        None
    } else if ms.last().path@ == p {
        Some((ms.last().modified_unix_ms, ms.last().byte_len))
    } else {
        meta_lookup(ms.drop_last(), p)
    }
}

/// Paths known to both whose records differ.
pub open spec fn changed_set(old: Seq<IndexedFileMeta>, cur: Seq<IndexedFileMeta>) -> Set<Seq<char>> {
    Set::new(|p: Seq<char>| meta_lookup(old, p) is Some && meta_lookup(cur, p) is Some && meta_lookup(old, p) != meta_lookup(cur, p))
}

/// Paths indexed before and absent now.
pub open spec fn missing_set(old: Seq<IndexedFileMeta>, cur: Seq<IndexedFileMeta>) -> Set<Seq<char>> {
    Set::new(|p: Seq<char>| meta_lookup(old, p) is Some && meta_lookup(cur, p) is None)
}

/// Paths present now and not indexed before.
pub open spec fn new_set(old: Seq<IndexedFileMeta>, cur: Seq<IndexedFileMeta>) -> Set<Seq<char>> {
    Set::new(|p: Seq<char>| meta_lookup(cur, p) is Some && meta_lookup(old, p) is None)
}

pub proof fn lemma_meta_lookup_some(ms: Seq<IndexedFileMeta>, p: Seq<char>)
    ensures
        meta_lookup(ms, p) is Some <==> exists|i: int| 0 <= i < ms.len() && #[trigger] ms[i].path@ == p,
    decreases ms.len(),
{
    if ms.len() > 0 {
        lemma_meta_lookup_some(ms.drop_last(), p);
        if exists|i: int| 0 <= i < ms.len() && #[trigger] ms[i].path@ == p {
            let i = choose|i: int| 0 <= i < ms.len() && #[trigger] ms[i].path@ == p;
            if i < ms.len() - 1 {
                assert(ms.drop_last()[i].path@ == p);
            }
        }
        if exists|i: int| 0 <= i < ms.drop_last().len() && #[trigger] ms.drop_last()[i].path@ == p {
            let i = choose|i: int| 0 <= i < ms.drop_last().len() && #[trigger] ms.drop_last()[i].path@ == p;
            assert(ms[i].path@ == p);
        }
    }
}

/// The record for `p`.
fn meta_lookup_exec(ms: &Vec<IndexedFileMeta>, p: &String) -> (r: Option<(u64, u64)>)
    ensures
        r == meta_lookup(ms@, p@),
{
    let mut n: usize = ms.len();
    assert(ms@.subrange(0, n as int) =~= ms@);
    while n > 0
        invariant
            n <= ms@.len(),
            meta_lookup(ms@, p@) == meta_lookup(ms@.subrange(0, n as int), p@),
        decreases n,
    {
        let ghost sub = ms@.subrange(0, n as int);
        assert(sub.drop_last() =~= ms@.subrange(0, n - 1));
        assert(sub.last() == ms@[n - 1]);
        if str_eq(ms[n - 1].path.as_str(), p.as_str()) {
            return Some((ms[n - 1].modified_unix_ms, ms[n - 1].byte_len));
        }
        n = n - 1;
    }
    None
}

/// What the freshness of a graph is, given the files on disk now.
pub open spec fn freshness_valid(graph: &CodeGraph, current: Seq<IndexedFileMeta>, f: &IndexFreshness) -> bool {
    &&& f.expected_schema_version == INDEX_SCHEMA_VERSION
    &&& match &graph.metadata {
        None => {
            &&& !f.has_metadata
            &&& f.schema_version is None
            &&& f.generated_at_unix_ms is None
            &&& f.stale
            &&& f.schema_mismatch
            &&& f.changed_files@.len() == 0
            &&& f.missing_files@.len() == 0
            &&& f.new_files@.len() == 0
        },
        Some(m) => {
            let old = m.indexed_files@;
            &&& f.has_metadata
            &&& f.schema_version == Some(m.schema_version)
            &&& f.generated_at_unix_ms == Some(m.generated_at_unix_ms)
            &&& f.schema_mismatch == (m.schema_version != INDEX_SCHEMA_VERSION)
            &&& strictly_sorted(str_views(f.changed_files@))
            &&& str_views(f.changed_files@).to_set() == changed_set(old, current)
            &&& strictly_sorted(str_views(f.missing_files@))
            &&& str_views(f.missing_files@).to_set() == missing_set(old, current)
            &&& strictly_sorted(str_views(f.new_files@))
            &&& str_views(f.new_files@).to_set() == new_set(old, current)
            &&& f.stale == (f.schema_mismatch || f.changed_files@.len() > 0 || f.missing_files@.len() > 0
                || f.new_files@.len() > 0)
        },
    }
}

/// Compares the graph's index metadata with the files found on disk now.
pub fn freshness(graph: &CodeGraph, current: &Vec<IndexedFileMeta>) -> (f: IndexFreshness)
    ensures
        freshness_valid(graph, current@, &f),
{
    match &graph.metadata {
        None => IndexFreshness {
            has_metadata: false,
            schema_version: None,
            expected_schema_version: INDEX_SCHEMA_VERSION,
            generated_at_unix_ms: None,
            stale: true,
            schema_mismatch: true,
            changed_files: Vec::new(),
            missing_files: Vec::new(),
            new_files: Vec::new(),
        },
        Some(metadata) => {
            let old = &metadata.indexed_files;
            let ghost ov = old@;
            let ghost cv = current@;
            let mut changed: Vec<String> = Vec::new();
            let mut missing: Vec<String> = Vec::new();
            let mut i: usize = 0;
            while i < old.len()
                invariant
                    i <= ov.len(),
                    ov == old@,
                    cv == current@,
                    forall|p: Seq<char>| #[trigger] str_views(changed@).contains(p) <==> (changed_set(ov, cv).contains(p) && exists|k: int| 0 <= k < i && #[trigger] ov[k].path@ == p),
                    forall|p: Seq<char>| #[trigger] str_views(missing@).contains(p) <==> (missing_set(ov, cv).contains(p) && exists|k: int| 0 <= k < i && #[trigger] ov[k].path@ == p),
                decreases ov.len() - i,
            {
                let p = &old[i];
                let o = meta_lookup_exec(old, &p.path);
                let c = meta_lookup_exec(current, &p.path);
                let ghost cb = str_views(changed@);
                let ghost mb = str_views(missing@);
                proof {
                    lemma_meta_lookup_some(ov, p.path@);
                    assert(ov[i as int].path@ == p.path@);
                }
                match c {
                    Some(cur) => {
                        if o != Some(cur) {
                            changed.push(p.path.clone());
                            assert(str_views(changed@) =~= cb.push(p.path@));
                        }
                    },
                    None => {
                        missing.push(p.path.clone());
                        assert(str_views(missing@) =~= mb.push(p.path@));
                    },
                }
                proof {
                    assert forall|q: Seq<char>| #[trigger] str_views(changed@).contains(q) <==> (changed_set(ov, cv).contains(q) && exists|k: int| 0 <= k < i + 1 && #[trigger] ov[k].path@ == q) by {
                        if str_views(changed@).contains(q) && !cb.contains(q) {
                            let t = choose|t: int| 0 <= t < str_views(changed@).len() && str_views(changed@)[t] == q;
                            assert(t == cb.len());
                        }
                        if cb.contains(q) {
                            let t = choose|t: int| 0 <= t < cb.len() && cb[t] == q;
                            assert(str_views(changed@)[t] == q);
                        }
                        if changed_set(ov, cv).contains(q) && exists|k: int| 0 <= k < i + 1 && #[trigger] ov[k].path@ == q {
                            let k = choose|k: int| 0 <= k < i + 1 && #[trigger] ov[k].path@ == q;
                            if k == i {
                                assert(str_views(changed@)[str_views(changed@).len() - 1] == q);
                            }
                        }
                    }
                    assert forall|q: Seq<char>| #[trigger] str_views(missing@).contains(q) <==> (missing_set(ov, cv).contains(q) && exists|k: int| 0 <= k < i + 1 && #[trigger] ov[k].path@ == q) by {
                        if str_views(missing@).contains(q) && !mb.contains(q) {
                            let t = choose|t: int| 0 <= t < str_views(missing@).len() && str_views(missing@)[t] == q;
                            assert(t == mb.len());
                        }
                        if mb.contains(q) {
                            let t = choose|t: int| 0 <= t < mb.len() && mb[t] == q;
                            assert(str_views(missing@)[t] == q);
                        }
                        if missing_set(ov, cv).contains(q) && exists|k: int| 0 <= k < i + 1 && #[trigger] ov[k].path@ == q {
                            let k = choose|k: int| 0 <= k < i + 1 && #[trigger] ov[k].path@ == q;
                            if k == i {
                                assert(str_views(missing@)[str_views(missing@).len() - 1] == q);
                            }
                        }
                    }
                }
                i = i + 1;
            }
            let mut added: Vec<String> = Vec::new();
            let mut j: usize = 0;
            while j < current.len()
                invariant
                    j <= cv.len(),
                    ov == old@,
                    cv == current@,
                    forall|p: Seq<char>| #[trigger] str_views(added@).contains(p) <==> (new_set(ov, cv).contains(p) && exists|k: int| 0 <= k < j && #[trigger] cv[k].path@ == p),
                decreases cv.len() - j,
            {
                let p = &current[j];
                let o = meta_lookup_exec(old, &p.path);
                let ghost ab = str_views(added@);
                proof {
                    lemma_meta_lookup_some(cv, p.path@);
                    assert(cv[j as int].path@ == p.path@);
                }
                if o.is_none() {
                    added.push(p.path.clone());
                    assert(str_views(added@) =~= ab.push(p.path@));
                }
                proof {
                    assert forall|q: Seq<char>| #[trigger] str_views(added@).contains(q) <==> (new_set(ov, cv).contains(q) && exists|k: int| 0 <= k < j + 1 && #[trigger] cv[k].path@ == q) by {
                        if str_views(added@).contains(q) && !ab.contains(q) {
                            let t = choose|t: int| 0 <= t < str_views(added@).len() && str_views(added@)[t] == q;
                            assert(t == ab.len());
                        }
                        if ab.contains(q) {
                            let t = choose|t: int| 0 <= t < ab.len() && ab[t] == q;
                            assert(str_views(added@)[t] == q);
                        }
                        if new_set(ov, cv).contains(q) && exists|k: int| 0 <= k < j + 1 && #[trigger] cv[k].path@ == q {
                            let k = choose|k: int| 0 <= k < j + 1 && #[trigger] cv[k].path@ == q;
                            if k == j {
                                assert(str_views(added@)[str_views(added@).len() - 1] == q);
                            }
                        }
                    }
                }
                j = j + 1;
            }
            let changed_files = sort_dedup(&changed);
            let missing_files = sort_dedup(&missing);
            let new_files = sort_dedup(&added);
            proof {
                assert forall|q: Seq<char>| str_views(changed_files@).to_set().contains(q) <==> changed_set(ov, cv).contains(q) by {
                    assert(str_views(changed@).to_set().contains(q) <==> str_views(changed@).contains(q));
                    lemma_meta_lookup_some(ov, q);
                }
                assert(str_views(changed_files@).to_set() =~= changed_set(ov, cv));
                assert forall|q: Seq<char>| str_views(missing_files@).to_set().contains(q) <==> missing_set(ov, cv).contains(q) by {
                    assert(str_views(missing@).to_set().contains(q) <==> str_views(missing@).contains(q));
                    lemma_meta_lookup_some(ov, q);
                }
                assert(str_views(missing_files@).to_set() =~= missing_set(ov, cv));
                assert forall|q: Seq<char>| str_views(new_files@).to_set().contains(q) <==> new_set(ov, cv).contains(q) by {
                    assert(str_views(added@).to_set().contains(q) <==> str_views(added@).contains(q));
                    lemma_meta_lookup_some(cv, q);
                }
                assert(str_views(new_files@).to_set() =~= new_set(ov, cv));
            }
            let schema_mismatch = metadata.schema_version != INDEX_SCHEMA_VERSION;
            let stale = schema_mismatch || changed_files.len() > 0 || missing_files.len() > 0
                || new_files.len() > 0;
            IndexFreshness {
                has_metadata: true,
                schema_version: Some(metadata.schema_version),
                expected_schema_version: INDEX_SCHEMA_VERSION,
                generated_at_unix_ms: Some(metadata.generated_at_unix_ms),
                stale,
                schema_mismatch,
                changed_files,
                missing_files,
                new_files,
            }
        },
    }
}


/// Why an index counts as stale, in a fixed order.
pub open spec fn stale_reasons(f: &IndexFreshness) -> Seq<Seq<char>> {
    (if f.schema_mismatch { seq!["schema mismatch"@] } else { Seq::empty() })
        + (if f.changed_files@.len() > 0 { seq![decimal(f.changed_files@.len()) + " changed"@] } else { Seq::empty() })
        + (if f.missing_files@.len() > 0 { seq![decimal(f.missing_files@.len()) + " missing"@] } else { Seq::empty() })
        + (if f.new_files@.len() > 0 { seq![decimal(f.new_files@.len()) + " new"@] } else { Seq::empty() })
}

/// A one-line description of the index's freshness.
pub open spec fn freshness_summary(f: &IndexFreshness) -> Seq<char> {
    if !f.has_metadata {
        "index has no metadata; run atlas scan --force"@
    } else if !f.stale {
        "index is current"@
    } else {
        "index may be stale ("@ + join(stale_reasons(f), ", "@) + ")"@
    }
}

fn push_count_reason(reasons: &mut Vec<Vec<char>>, n: usize, word: &str)
    ensures
        views(final(reasons)@) == views(old(reasons)@) + (if n > 0 { seq![decimal(n as nat) + word@] } else { Seq::<Seq<char>>::empty() }),
{
    let ghost before = views(reasons@);
    if n > 0 {
        let d = decimal_chars(n);
        let w = chars_of(word);
        let r = cat(d.as_slice(), w.as_slice());
        reasons.push(r);
        assert(views(reasons@) =~= before + seq![decimal(n as nat) + word@]);
    } else {
        assert(views(reasons@) =~= before + Seq::<Seq<char>>::empty());
    }
}

/// Two freshness reports say the same.
pub open spec fn same_freshness(a: &IndexFreshness, b: &IndexFreshness) -> bool {
    &&& a.has_metadata == b.has_metadata
    &&& a.schema_version == b.schema_version
    &&& a.expected_schema_version == b.expected_schema_version
    &&& a.generated_at_unix_ms == b.generated_at_unix_ms
    &&& a.stale == b.stale
    &&& a.schema_mismatch == b.schema_mismatch
    &&& str_views(a.changed_files@) == str_views(b.changed_files@)
    &&& str_views(a.missing_files@) == str_views(b.missing_files@)
    &&& str_views(a.new_files@) == str_views(b.new_files@)
}

impl IndexFreshness {
    /// A copy of the report.
    pub fn duplicate(&self) -> (r: IndexFreshness)
        ensures
            same_freshness(&r, self),
    {
        IndexFreshness {
            has_metadata: self.has_metadata,
            schema_version: self.schema_version,
            expected_schema_version: self.expected_schema_version,
            generated_at_unix_ms: self.generated_at_unix_ms,
            stale: self.stale,
            schema_mismatch: self.schema_mismatch,
            changed_files: clone_strings(&self.changed_files),
            missing_files: clone_strings(&self.missing_files),
            new_files: clone_strings(&self.new_files),
        }
    }

    /// A one-line description of the index's freshness.
    pub fn summary(&self) -> (r: String)
        ensures
            r@ == freshness_summary(self),
    {
        if !self.has_metadata {
            return "index has no metadata; run atlas scan --force".to_owned();
        }
        if !self.stale {
            return "index is current".to_owned();
        }
        let mut reasons: Vec<Vec<char>> = Vec::new();
        if self.schema_mismatch {
            reasons.push(chars_of("schema mismatch"));
        }
        assert(views(reasons@) =~= (if self.schema_mismatch { seq!["schema mismatch"@] } else { Seq::<Seq<char>>::empty() }));
        push_count_reason(&mut reasons, self.changed_files.len(), " changed");
        push_count_reason(&mut reasons, self.missing_files.len(), " missing");
        push_count_reason(&mut reasons, self.new_files.len(), " new");
        assert(views(reasons@) =~= stale_reasons(self));
        let joined = join_exec(&reasons, chars_of(", ").as_slice());
        let head = chars_of("index may be stale (");
        let tail = chars_of(")");
        let all = cat(cat(head.as_slice(), joined.as_slice()).as_slice(), tail.as_slice());
        string_of(all.as_slice())
    }
}

} // verus!
