//! Content search across packages: for every aggregate record, every
//! version's cached listing is consulted; each distinct matched path is
//! reported once, with a flag telling whether every version of the package
//! contains it.

use vstd::prelude::*;

use crate::cache::{contains_spec, CacheEntryView, CacheStateView};
use crate::codec::{FullNameView, PackageFullName, PackageIdView};
use crate::manifest::{PackageManifestView, VersionDataView};
use crate::version::VersionView;

verus! {

/// The result of a content search: one matched path, the package's full
/// name, and whether every version of the package contains the path.
pub struct ContentSearchResult {
    pub path: String,
    pub name: PackageFullName,
    pub all_versions: bool,
}

pub struct ContentSearchResultView {
    pub path: Seq<char>,
    pub name: FullNameView,
    pub all_versions: bool,
}

impl View for ContentSearchResult {
    type V = ContentSearchResultView;

    open spec fn view(&self) -> ContentSearchResultView {
        ContentSearchResultView { path: self.path@, name: self.name@, all_versions: self.all_versions }
    }
}

// ---------------------------------------------------------------------------
// Occurrence counting
// ---------------------------------------------------------------------------

/// How many times a path occurs.
pub open spec fn occurrences(s: Seq<Seq<char>>, p: Seq<char>) -> nat
    decreases s.len(),
{
    if s.len() == 0 {
        0
    } else {
        occurrences(s.drop_last(), p) + (if s.last() == p {
            1nat
        } else {
            0nat
        })
    }
}

pub proof fn lemma_occurrences_concat(a: Seq<Seq<char>>, b: Seq<Seq<char>>, p: Seq<char>)
    ensures
        occurrences(a + b, p) == occurrences(a, p) + occurrences(b, p),
    decreases b.len(),
{
    if b.len() == 0 {
        assert(a + b =~= a);
    } else {
        lemma_occurrences_concat(a, b.drop_last(), p);
        assert((a + b).drop_last() =~= a + b.drop_last());
        assert((a + b).last() == b.last());
    }
}

pub proof fn lemma_occurrences_positive(s: Seq<Seq<char>>, p: Seq<char>)
    ensures
        occurrences(s, p) > 0 <==> s.contains(p),
        occurrences(s, p) <= s.len(),
    decreases s.len(),
{
    if s.len() > 0 {
        lemma_occurrences_positive(s.drop_last(), p);
        if s.contains(p) {
            let i = choose|i: int| 0 <= i < s.len() && s[i] == p;
            if i < s.len() - 1 {
                assert(s.drop_last()[i] == p);
                assert(s.drop_last().contains(p));
            }
        }
        if s.drop_last().contains(p) {
            let i = choose|i: int| 0 <= i < s.drop_last().len() && s.drop_last()[i] == p;
            assert(s[i] == p);
        }
    }
}

// ---------------------------------------------------------------------------
// Deduplication (first occurrence kept)
// ---------------------------------------------------------------------------

/// The distinct paths, in order of first occurrence.
pub open spec fn dedup(s: Seq<Seq<char>>) -> Seq<Seq<char>>
    decreases s.len(),
{
    if s.len() == 0 {
        s
    } else {
        let d = dedup(s.drop_last());
        if d.contains(s.last()) {
            d
        } else {
            d.push(s.last())
        }
    }
}

pub proof fn lemma_dedup_spec(s: Seq<Seq<char>>)
    ensures
        forall|p: Seq<char>| #[trigger] dedup(s).contains(p) <==> s.contains(p),
        forall|p: Seq<char>| #[trigger] occurrences(dedup(s), p) <= 1,
        dedup(s).len() <= s.len(),
    decreases s.len(),
{
    if s.len() > 0 {
        lemma_dedup_spec(s.drop_last());
        let d = dedup(s.drop_last());
        assert forall|p: Seq<char>| #[trigger] dedup(s).contains(p) <==> s.contains(p) by {
            if dedup(s).contains(p) {
                let i = choose|i: int| 0 <= i < dedup(s).len() && #[trigger] dedup(s)[i] == p;
                if d.contains(s.last()) {
                    assert(d[i] == p);
                    assert(d.contains(p));
                    assert(s.drop_last().contains(p));
                    let k = choose|k: int|
                        0 <= k < s.drop_last().len() && #[trigger] s.drop_last()[k] == p;
                    assert(s[k] == p);
                    assert(s.contains(p));
                } else {
                    if i < d.len() {
                        assert(d[i] == p);
                        assert(d.contains(p));
                        assert(s.drop_last().contains(p));
                        let k = choose|k: int|
                            0 <= k < s.drop_last().len() && #[trigger] s.drop_last()[k] == p;
                        assert(s[k] == p);
                        assert(s.contains(p));
                    } else {
                        assert(p == s.last());
                        assert(s[s.len() - 1] == p);
                        assert(s.contains(p));
                    }
                }
            }
            if s.contains(p) {
                let i = choose|i: int| 0 <= i < s.len() && #[trigger] s[i] == p;
                if i < s.len() - 1 {
                    assert(s.drop_last()[i] == p);
                    assert(s.drop_last().contains(p));
                    assert(d.contains(p));
                    let j = choose|j: int| 0 <= j < d.len() && #[trigger] d[j] == p;
                    if d.contains(s.last()) {
                        assert(dedup(s)[j] == p);
                        assert(dedup(s).contains(p));
                    } else {
                        assert(dedup(s)[j] == p);
                        assert(dedup(s).contains(p));
                    }
                } else {
                    if d.contains(s.last()) {
                        assert(d.contains(p));
                        let j = choose|j: int| 0 <= j < d.len() && #[trigger] d[j] == p;
                        assert(dedup(s)[j] == p);
                        assert(dedup(s).contains(p));
                    } else {
                        assert(dedup(s).last() == p);
                        assert(dedup(s).contains(p));
                    }
                }
            }
        }
        assert forall|p: Seq<char>| #[trigger] occurrences(dedup(s), p) <= 1 by {
            if d.contains(s.last()) {
            } else {
                let out = d.push(s.last());
                assert(out.drop_last() =~= d);
                assert(occurrences(out, p) == occurrences(d, p) + (if s.last() == p {
                    1nat
                } else {
                    0nat
                }));
                if s.last() == p {
                    lemma_occurrences_positive(d, p);
                    assert(occurrences(d, p) == 0);
                }
            }
        }
    }
}

// ---------------------------------------------------------------------------
// Tallying
// ---------------------------------------------------------------------------

/// The first counter for a path.
pub open spec fn find_counter(c: Seq<(Seq<char>, nat)>, p: Seq<char>) -> Option<int>
    decreases c.len(),
{
    if c.len() == 0 {
        None
    } else if c[0].0 == p {
        Some(0)
    } else {
        match find_counter(c.drop_first(), p) {
            None => None,
            Some(i) => Some(i + 1),
        }
    }
}

pub proof fn lemma_find_counter_spec(c: Seq<(Seq<char>, nat)>, p: Seq<char>)
    ensures
        find_counter(c, p) matches Some(i) ==> 0 <= i < c.len() && c[i].0 == p && (forall|j: int|
            0 <= j < i ==> (#[trigger] c[j]).0 != p),
        find_counter(c, p) is None ==> forall|j: int| 0 <= j < c.len() ==> (#[trigger] c[j]).0 != p,
    decreases c.len(),
{
    if c.len() > 0 && c[0].0 != p {
        let d = c.drop_first();
        lemma_find_counter_spec(d, p);
        assert(forall|j: int| 0 <= j < d.len() ==> d[j] == c[j + 1]);
        match find_counter(d, p) {
            None => {
                assert forall|j: int| 0 <= j < c.len() implies (#[trigger] c[j]).0 != p by {
                    if j > 0 {
                        assert(d[j - 1] == c[j]);
                    }
                }
            },
            Some(i) => {
                assert(d[i] == c[i + 1]);
                assert forall|j: int| 0 <= j < i + 1 implies (#[trigger] c[j]).0 != p by {
                    if j > 0 {
                        assert(d[j - 1] == c[j]);
                    }
                }
            },
        }
    }
}

/// Per distinct path, how many times it occurs, keyed in order of first
/// occurrence.
pub open spec fn tally(paths: Seq<Seq<char>>) -> Seq<(Seq<char>, nat)>
    decreases paths.len(),
{
    if paths.len() == 0 {
        Seq::empty()
    } else {
        let c = tally(paths.drop_last());
        match find_counter(c, paths.last()) {
            Some(i) => c.update(i, (paths.last(), (c[i].1 + 1) as nat)),
            None => c.push((paths.last(), 1nat)),
        }
    }
}

/// Every counter holds the occurrence count of its path; keys are the
/// distinct paths in order of first occurrence.
pub proof fn lemma_tally_spec(paths: Seq<Seq<char>>)
    ensures
        forall|i: int|
            0 <= i < tally(paths).len() ==> (#[trigger] tally(paths)[i]).1 == occurrences(
                paths,
                tally(paths)[i].0,
            ),
        forall|i: int, j: int|
            0 <= i < j < tally(paths).len() ==> (#[trigger] tally(paths)[i]).0 != (
            #[trigger] tally(paths)[j]).0,
        tally(paths).len() == dedup(paths).len(),
        forall|i: int|
            0 <= i < tally(paths).len() ==> (#[trigger] tally(paths)[i]).0 == dedup(paths)[i],
    decreases paths.len(),
{
    if paths.len() > 0 {
        lemma_tally_spec(paths.drop_last());
        let c = tally(paths.drop_last());
        let d = dedup(paths.drop_last());
        let p = paths.last();
        lemma_find_counter_spec(c, p);
        lemma_dedup_spec(paths.drop_last());
        assert(paths.drop_last() == paths.drop_last());
        match find_counter(c, p) {
            Some(k) => {
                assert(d.contains(p)) by {
                    assert(c[k].0 == p && c[k].0 == d[k]);
                    assert(d[k] == p);
                }
                let out = tally(paths);
                assert(out == c.update(k, (p, (c[k].1 + 1) as nat)));
                assert forall|i: int| 0 <= i < out.len() implies (#[trigger] out[i]).1
                    == occurrences(paths, out[i].0) by {
                    assert(occurrences(paths, out[i].0) == occurrences(
                        paths.drop_last(),
                        out[i].0,
                    ) + (if p == out[i].0 {
                        1nat
                    } else {
                        0nat
                    }));
                    if i == k {
                    } else {
                        assert(out[i] == c[i]);
                        assert(c[i].0 != p);
                    }
                }
            },
            None => {
                assert(!d.contains(p)) by {
                    if d.contains(p) {
                        let j = choose|j: int| 0 <= j < d.len() && d[j] == p;
                        assert(c[j].0 == d[j]);
                    }
                }
                let out = tally(paths);
                assert(out == c.push((p, 1nat)));
                assert forall|i: int| 0 <= i < out.len() implies (#[trigger] out[i]).1
                    == occurrences(paths, out[i].0) by {
                    assert(occurrences(paths, out[i].0) == occurrences(
                        paths.drop_last(),
                        out[i].0,
                    ) + (if p == out[i].0 {
                        1nat
                    } else {
                        0nat
                    }));
                    if i < c.len() {
                        assert(out[i] == c[i]);
                        assert(c[i].0 != p);
                    } else {
                        assert(out[i] == (p, 1nat));
                        lemma_occurrences_positive(paths.drop_last(), p);
                        assert(!paths.drop_last().contains(p));
                    }
                }
                assert forall|i: int, j: int| 0 <= i < j < out.len() implies (
                #[trigger] out[i]).0 != (#[trigger] out[j]).0 by {
                    if j < c.len() {
                        assert(out[i] == c[i] && out[j] == c[j]);
                    } else {
                        assert(out[i] == c[i]);
                        assert(c[i].0 != p);
                    }
                }
            },
        }
    }
}


// ---------------------------------------------------------------------------
// Executable helpers
// ---------------------------------------------------------------------------

/// Whether a string vector holds the given string, by value.
pub fn string_vec_contains(v: &Vec<String>, s: &str) -> (r: bool)
    ensures
        r == v@.map_values(|x: String| x@).contains(s@),
{
    let ghost m = v@.map_values(|x: String| x@);
    let mut i: usize = 0;
    while i < v.len()
        invariant
            0 <= i <= v@.len(),
            m == v@.map_values(|x: String| x@),
            forall|j: int| 0 <= j < i ==> m[j] != s@,
        decreases v@.len() - i,
    {
        proof {
            assert(m[i as int] == v@[i as int]@);
        }
        if crate::strutil::str_eq(v[i].as_str(), s) {
            return true;
        }
        i = i + 1;
    }
    proof {
        if m.contains(s@) {
            let j = choose|j: int| 0 <= j < m.len() && #[trigger] m[j] == s@;
        }
    }
    false
}

/// The distinct strings, in order of first occurrence.
pub fn dedup_strings(v: &Vec<String>) -> (r: Vec<String>)
    ensures
        r@.map_values(|x: String| x@) == dedup(v@.map_values(|x: String| x@)),
{
    let ghost m = v@.map_values(|x: String| x@);
    let mut r: Vec<String> = Vec::new();
    let mut i: usize = 0;
    proof {
        assert(m.take(0) =~= Seq::<Seq<char>>::empty());
        assert(r@.map_values(|x: String| x@) =~= dedup(m.take(0)));
    }
    while i < v.len()
        invariant
            0 <= i <= v@.len(),
            m == v@.map_values(|x: String| x@),
            r@.map_values(|x: String| x@) == dedup(m.take(i as int)),
        decreases v@.len() - i,
    {
        let ghost pre = r@.map_values(|x: String| x@);
        proof {
            assert(m[i as int] == v@[i as int]@);
            assert(m.take(i as int + 1).drop_last() =~= m.take(i as int));
            assert(m.take(i as int + 1).last() == m[i as int]);
        }
        if !string_vec_contains(&r, v[i].as_str()) {
            let x = v[i].clone();
            r.push(x);
            proof {
                assert(r@.map_values(|x: String| x@) =~= pre.push(m[i as int]));
            }
        }
        i = i + 1;
    }
    proof {
        assert(m.take(m.len() as int) =~= m);
    }
    r
}

/// The view of a counter vector.
pub open spec fn counters_view(c: Seq<(String, usize)>) -> Seq<(Seq<char>, nat)> {
    c.map_values(|x: (String, usize)| (x.0@, x.1 as nat))
}

/// The first counter for a path, by value.
pub fn find_counter_exec(c: &Vec<(String, usize)>, p: &str) -> (r: Option<usize>)
    ensures
        r matches Some(i) ==> i < c@.len() && find_counter(counters_view(c@), p@) == Some(i as int),
        r is None ==> find_counter(counters_view(c@), p@) is None,
{
    let ghost m = counters_view(c@);
    let mut i: usize = 0;
    while i < c.len()
        invariant
            0 <= i <= c@.len(),
            m == counters_view(c@),
            forall|j: int| 0 <= j < i ==> (#[trigger] m[j]).0 != p@,
        decreases c@.len() - i,
    {
        proof {
            assert(m[i as int] == (c@[i as int].0@, c@[i as int].1 as nat));
        }
        if crate::strutil::str_eq(c[i].0.as_str(), p) {
            proof {
                lemma_find_counter_spec(m, p@);
                match find_counter(m, p@) {
                    None => {
                        assert(m[i as int].0 != p@);
                    },
                    Some(k) => {
                        if k < i {
                            assert(m[k].0 != p@);
                        }
                        if k > i {
                            assert(m[i as int].0 != p@);
                        }
                    },
                }
            }
            return Some(i);
        }
        i = i + 1;
    }
    proof {
        lemma_find_counter_spec(m, p@);
        match find_counter(m, p@) {
            None => {},
            Some(k) => {
                assert(m[k].0 != p@);
            },
        }
    }
    None
}

} // verus!
