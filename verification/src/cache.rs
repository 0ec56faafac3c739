//! Per-version cache entries: a copy of the archive's manifest and, for
//! effective packages, the normalized listing of contained files, together
//! with the timestamps used for staleness detection.

use vstd::prelude::*;

use crate::codec::{PackageID, PackageIdView};
use crate::manifest::{Kind, Manifest, ManifestView};
use crate::strutil::{
    clone_range, contains_seq, join_on, join_strings, real_segments, seq_contains_char, split_on,
    split_string, str_contains, str_eq,
};

verus! {

// ---------------------------------------------------------------------------
// What the archive explorer yields
// ---------------------------------------------------------------------------

/// What exploring one archive yields: its manifest and, when the archive
/// carries a payload, the raw paths of the contained files.
pub struct ArchiveData {
    pub manifest: Manifest,
    pub payload: Option<Vec<String>>,
}

pub struct ArchiveDataView {
    pub manifest: ManifestView,
    pub payload: Option<Seq<Seq<char>>>,
}

impl View for ArchiveData {
    type V = ArchiveDataView;

    open spec fn view(&self) -> ArchiveDataView {
        ArchiveDataView {
            manifest: self.manifest@,
            payload: match self.payload {
                Some(ref p) => Some(p@.map_values(|s: String| s@)),
                None => None,
            },
        }
    }
}

/// The outcome of opening an archive: its content, or a failure to read or
/// parse it.
pub enum ArchiveOutcome {
    Parsed(ArchiveData),
    Unreadable(String),
}

pub enum ArchiveOutcomeView {
    Parsed(ArchiveDataView),
    Unreadable(Seq<char>),
}

impl View for ArchiveOutcome {
    type V = ArchiveOutcomeView;

    open spec fn view(&self) -> ArchiveOutcomeView {
        match self {
            ArchiveOutcome::Parsed(d) => ArchiveOutcomeView::Parsed(d@),
            ArchiveOutcome::Unreadable(m) => ArchiveOutcomeView::Unreadable(m@),
        }
    }
}

// ---------------------------------------------------------------------------
// Path normalization and file-name matching
// ---------------------------------------------------------------------------

/// A payload path, normalized: `.` components and empty components are
/// dropped, and the result is rooted at `/`.
pub open spec fn normalize_path(p: Seq<char>) -> Seq<char> {
    seq!['/'] + join_on(real_segments(split_on(p, '/')), '/')
}

/// Normalizes one payload path.
pub fn normalize_path_exec(p: &str) -> (r: String)
    ensures
        r@ == normalize_path(p@),
{
    let parts = split_string(p, '/');
    let ghost pv = split_on(p@, '/');
    let mut kept: Vec<String> = Vec::new();
    let mut i: usize = 0;
    proof {
        assert(pv.take(0) =~= Seq::<Seq<char>>::empty());
        assert(kept@.map_values(|s: String| s@) =~= real_segments(pv.take(0)));
    }
    while i < parts.len()
        invariant
            0 <= i <= parts@.len(),
            pv == parts@.map_values(|s: String| s@),
            kept@.map_values(|s: String| s@) == real_segments(pv.take(i as int)),
        decreases parts@.len() - i,
    {
        let ghost pre = kept@.map_values(|s: String| s@);
        proof {
            assert(parts@.map_values(|s: String| s@)[i as int] == pv[i as int]);
            assert(pv.take(i as int + 1).drop_last() =~= pv.take(i as int));
            assert(pv.take(i as int + 1).last() == pv[i as int]);
        }
        let n = parts[i].as_str().unicode_len();
        let is_dot = n == 1 && parts[i].as_str().get_char(0) == '.';
        proof {
            if n == 1 && pv[i as int][0] == '.' {
                assert(pv[i as int] =~= seq!['.']);
            }
            if pv[i as int] == seq!['.'] {
                assert(pv[i as int][0] == '.');
            }
        }
        if n > 0 && !is_dot {
            let part = parts[i].clone();
            kept.push(part);
            proof {
                assert(kept@.map_values(|s: String| s@) =~= pre.push(pv[i as int]));
            }
        }
        i = i + 1;
    }
    proof {
        assert(pv.take(pv.len() as int) =~= pv);
    }
    let joined = join_strings(&kept, '/');
    let mut r = String::new();
    r.push('/');
    crate::strutil::append_str(&mut r, &joined);
    proof {
        assert(r@ =~= normalize_path(p@));
    }
    r
}

/// Normalizes every payload path.
pub fn normalize_paths(paths: &Vec<String>) -> (r: Vec<String>)
    ensures
        r@.map_values(|s: String| s@) == paths@.map_values(|s: String| s@).map_values(
            |p: Seq<char>| normalize_path(p),
        ),
{
    let ghost pm = paths@.map_values(|s: String| s@).map_values(|p: Seq<char>| normalize_path(p));
    let mut r: Vec<String> = Vec::new();
    let mut i: usize = 0;
    while i < paths.len()
        invariant
            0 <= i <= paths@.len(),
            pm == paths@.map_values(|s: String| s@).map_values(|p: Seq<char>| normalize_path(p)),
            pm.len() == paths@.len(),
            r@.map_values(|s: String| s@) == pm.take(i as int),
        decreases paths@.len() - i,
    {
        let ghost pre = r@.map_values(|s: String| s@);
        let n = normalize_path_exec(paths[i].as_str());
        r.push(n);
        proof {
            assert(pm[i as int] == normalize_path(paths@[i as int]@));
            assert(r@.map_values(|s: String| s@) =~= pre.push(pm[i as int]));
            assert(pm.take(i as int + 1) =~= pm.take(i as int).push(pm[i as int]));
        }
        i = i + 1;
    }
    proof {
        assert(pm.take(pm.len() as int) =~= pm);
    }
    r
}

/// The final file-name component of a stored path, if it has one: the last
/// `/`-segment, unless that segment is empty, `.` or `..`.
pub open spec fn file_name_of(p: Seq<char>) -> Option<Seq<char>> {
    let last = split_on(p, '/').last();
    if last.len() == 0 || last == seq!['.'] || last == seq!['.', '.'] {
        None
    } else {
        Some(last)
    }
}

/// Whether a stored path answers the query: its file name equals the query
/// (`exact`), or contains it as a substring.
pub open spec fn fname_matches(p: Seq<char>, query: Seq<char>, exact: bool) -> bool {
    match file_name_of(p) {
        None => false,
        Some(f) => if exact {
            f == query
        } else {
            contains_seq(f, query)
        },
    }
}

/// The stored paths that answer the query, in stored order.
pub open spec fn matching_paths(files: Seq<Seq<char>>, query: Seq<char>, exact: bool) -> Seq<
    Seq<char>,
>
    decreases files.len(),
{
    if files.len() == 0 {
        files
    } else {
        let rest = matching_paths(files.drop_last(), query, exact);
        if fname_matches(files.last(), query, exact) {
            rest.push(files.last())
        } else {
            rest
        }
    }
}

/// Whether a stored path answers the query.
pub fn path_matches(p: &str, query: &str, exact_match: bool) -> (r: bool)
    ensures
        r == fname_matches(p@, query@, exact_match),
{
    let segs = split_string(p, '/');
    let ghost sv = split_on(p@, '/');
    proof {
        assert(segs@.map_values(|s: String| s@).len() == sv.len());
        assert(segs@.map_values(|s: String| s@)[sv.len() - 1] == sv[sv.len() - 1]);
    }
    let last = &segs[segs.len() - 1];
    let n = last.as_str().unicode_len();
    if n == 0 {
        return false;
    }
    if n == 1 && last.as_str().get_char(0) == '.' {
        proof {
            assert(last@ =~= seq!['.']);
        }
        return false;
    }
    if n == 2 && last.as_str().get_char(0) == '.' && last.as_str().get_char(1) == '.' {
        proof {
            assert(last@ =~= seq!['.', '.']);
        }
        return false;
    }
    proof {
        assert(last@ != seq!['.'] && last@ != seq!['.', '.']) by {
            if last@ == seq!['.'] {
                assert(last@.len() == 1 && last@[0] == '.');
            }
            if last@ == seq!['.', '.'] {
                assert(last@.len() == 2 && last@[0] == '.' && last@[1] == '.');
            }
        }
    }
    if exact_match {
        str_eq(last.as_str(), query)
    } else {
        str_contains(last.as_str(), query)
    }
}

// ---------------------------------------------------------------------------
// The cache entry
// ---------------------------------------------------------------------------

/// The durable data of one filled entry: the manifest copy, the normalized
/// listing for effective packages, and the write timestamps consulted by
/// the staleness check.
pub struct CacheEntryState {
    pub manifest: Manifest,
    pub filesmap: Option<Vec<String>>,
    pub manifest_mtime: i64,
    pub filesmap_mtime: i64,
}

pub struct CacheStateView {
    pub manifest: ManifestView,
    pub filesmap: Option<Seq<Seq<char>>>,
    pub manifest_mtime: int,
    pub filesmap_mtime: int,
}

impl View for CacheEntryState {
    type V = CacheStateView;

    open spec fn view(&self) -> CacheStateView {
        CacheStateView {
            manifest: self.manifest@,
            filesmap: match self.filesmap {
                Some(ref f) => Some(f@.map_values(|s: String| s@)),
                None => None,
            },
            manifest_mtime: self.manifest_mtime as int,
            filesmap_mtime: self.filesmap_mtime as int,
        }
    }
}

impl Clone for CacheEntryState {
    fn clone(&self) -> (r: Self)
        ensures
            r@ == self@,
    {
        let filesmap = match &self.filesmap {
            Some(f) => {
                let c = clone_range(f, 0, f.len());
                proof {
                    assert(f@.map_values(|s: String| s@).subrange(0, f@.len() as int) =~= f@
                        .map_values(|s: String| s@));
                }
                Some(c)
            },
            None => None,
        };
        CacheEntryState {
            manifest: self.manifest.clone(),
            filesmap,
            manifest_mtime: self.manifest_mtime,
            filesmap_mtime: self.filesmap_mtime,
        }
    }
}

/// One per-version cache entry: the identifier it belongs to, and its
/// durable state — `None` when the entry does not exist.
pub struct NPFCacheEntry {
    pub id: PackageID,
    pub state: Option<CacheEntryState>,
}

pub struct CacheEntryView {
    pub id: PackageIdView,
    pub state: Option<CacheStateView>,
}

impl View for NPFCacheEntry {
    type V = CacheEntryView;

    open spec fn view(&self) -> CacheEntryView {
        CacheEntryView {
            id: self.id@,
            state: match self.state {
                Some(ref s) => Some(s@),
                None => None,
            },
        }
    }
}

impl Clone for NPFCacheEntry {
    fn clone(&self) -> (r: Self)
        ensures
            r@ == self@,
    {
        let state = match &self.state {
            Some(s) => Some(s.clone()),
            None => None,
        };
        NPFCacheEntry { id: self.id.clone(), state }
    }
}

/// Whether a fill from this archive data succeeds: an effective package
/// must come with a payload listing.
pub open spec fn fill_ok(data: ArchiveDataView) -> bool {
    data.manifest.kind == Kind::Virtual || data.payload is Some
}

/// The entry state a successful fill leaves behind: the manifest copy, the
/// normalized listing for an effective package, and the fill timestamp on
/// both cache files.
pub open spec fn filled_state(data: ArchiveDataView, fill_time: int) -> CacheStateView {
    CacheStateView {
        manifest: data.manifest,
        filesmap: if data.manifest.kind == Kind::Effective {
            Some(data.payload.unwrap().map_values(|p: Seq<char>| normalize_path(p)))
        } else {
            None
        },
        manifest_mtime: fill_time,
        filesmap_mtime: fill_time,
    }
}

/// Whether the entry is stale: the archive is strictly newer than the
/// cached manifest copy and, if a listing is present, also newer than the
/// listing.  A missing archive or a missing entry is never stale.
pub open spec fn is_dirty_spec(e: CacheEntryView, npf_mtime: Option<int>) -> bool {
    match (e.state, npf_mtime) {
        (Some(st), Some(t)) => st.manifest_mtime < t && (st.filesmap is None
            || st.filesmap_mtime < t),
        _ => false,
    }
}

/// What a query over one entry returns: the stored paths whose file name
/// answers the query; an absent entry or listing yields nothing.
pub open spec fn contains_spec(e: CacheEntryView, query: Seq<char>, exact: bool) -> Seq<
    Seq<char>,
> {
    match e.state {
        None => Seq::empty(),
        Some(st) => match st.filesmap {
            None => Seq::empty(),
            Some(files) => matching_paths(files, query, exact),
        },
    }
}

impl NPFCacheEntry {
    /// A fresh handle for the given identifier, with no durable state.
    pub fn from(id: &PackageID) -> (r: Self)
        ensures
            r@.id == id@,
            r@.state is None,
    {
        NPFCacheEntry { id: id.clone(), state: None }
    }

    /// Whether the entry has been filled and not purged.
    pub fn is_present(&self) -> (r: bool)
        ensures
            r == (self@.state is Some),
    {
        match &self.state {
            Some(_) => true,
            None => false,
        }
    }

    /// Removes the entry's durable state.
    pub fn purge(&mut self)
        ensures
            final(self)@.id == old(self)@.id,
            final(self)@.state is None,
    {
        self.state = None;
    }

    /// Whether the entry is stale against the archive's modification time
    /// (`None` when the archive is absent).
    pub fn is_dirty(&self, npf_mtime: Option<i64>) -> (r: bool)
        ensures
            r == is_dirty_spec(self@, match npf_mtime {
                Some(t) => Some(t as int),
                None => None,
            }),
    {
        match (&self.state, npf_mtime) {
            (Some(st), Some(t)) => {
                let fm_older = match &st.filesmap {
                    Some(_) => st.filesmap_mtime < t,
                    None => true,
                };
                st.manifest_mtime < t && fm_older
            },
            _ => false,
        }
    }

    /// Fills the entry from explored archive data: stores the manifest copy
    /// and, for an effective package, the normalized file listing, stamping
    /// both with the fill time.  An effective archive without a payload
    /// fails, and the entry is purged — no partial entry is ever left.
    pub fn fill_with(&mut self, data: &ArchiveData, fill_time: i64) -> (r: Result<(), ()>)
        ensures
            final(self)@.id == old(self)@.id,
            r is Ok <==> fill_ok(data@),
            fill_ok(data@) ==> final(self)@.state == Some(filled_state(data@, fill_time as int)),
            !fill_ok(data@) ==> final(self)@.state is None,
    {
        let filesmap: Option<Vec<String>>;
        match data.manifest.kind {
            Kind::Effective => {
                match &data.payload {
                    Some(paths) => {
                        filesmap = Some(normalize_paths(paths));
                    },
                    None => {
                        self.state = None;
                        return Err(());
                    },
                }
            },
            Kind::Virtual => {
                filesmap = None;
            },
        }
        self.state = Some(
            CacheEntryState {
                manifest: data.manifest.clone(),
                filesmap,
                manifest_mtime: fill_time,
                filesmap_mtime: fill_time,
            },
        );
        proof {
            assert(self@.state == Some(filled_state(data@, fill_time as int)));
        }
        Ok(())
    }

    /// The cached manifest copy; fails when the entry does not exist.
    pub fn manifest(&self) -> (r: Result<Manifest, ()>)
        ensures
            r matches Ok(m) ==> self@.state is Some && m@ == self@.state.unwrap().manifest,
            r is Err <==> self@.state is None,
    {
        match &self.state {
            Some(st) => Ok(st.manifest.clone()),
            None => Err(()),
        }
    }

    /// The cached listing: `None` for a virtual package; fails when the
    /// entry does not exist.
    pub fn filesmap(&self) -> (r: Result<Option<Vec<String>>, ()>)
        ensures
            r matches Ok(f) ==> self@.state is Some && (match f {
                Some(v) => self@.state.unwrap().filesmap == Some(
                    v@.map_values(|s: String| s@),
                ),
                None => self@.state.unwrap().filesmap is None,
            }),
            r is Err <==> self@.state is None,
    {
        match &self.state {
            Some(st) => match &st.filesmap {
                Some(f) => {
                    let c = clone_range(f, 0, f.len());
                    proof {
                        assert(f@.map_values(|s: String| s@).subrange(0, f@.len() as int) =~= f@
                            .map_values(|s: String| s@));
                    }
                    Ok(Some(c))
                },
                None => Ok(None),
            },
            None => Err(()),
        }
    }

    /// All stored content paths whose final file-name component equals the
    /// query (`exact_match`) or contains it as a substring.  An entry
    /// without state or without a listing yields nothing.
    pub fn contains(&self, query: &str, exact_match: bool) -> (r: Vec<String>)
        ensures
            r@.map_values(|s: String| s@) == contains_spec(self@, query@, exact_match),
    {
        let mut r: Vec<String> = Vec::new();
        match &self.state {
            None => {
                proof {
                    assert(r@.map_values(|s: String| s@) =~= contains_spec(
                        self@,
                        query@,
                        exact_match,
                    ));
                }
                r
            },
            Some(st) => {
                match &st.filesmap {
                    None => {
                        proof {
                            assert(r@.map_values(|s: String| s@) =~= contains_spec(
                                self@,
                                query@,
                                exact_match,
                            ));
                        }
                        r
                    },
                    Some(files) => {
                        let ghost fv = files@.map_values(|s: String| s@);
                        let mut i: usize = 0;
                        proof {
                            assert(fv.take(0) =~= Seq::<Seq<char>>::empty());
                            assert(r@.map_values(|s: String| s@) =~= matching_paths(
                                fv.take(0),
                                query@,
                                exact_match,
                            ));
                        }
                        while i < files.len()
                            invariant
                                0 <= i <= files@.len(),
                                fv == files@.map_values(|s: String| s@),
                                r@.map_values(|s: String| s@) == matching_paths(
                                    fv.take(i as int),
                                    query@,
                                    exact_match,
                                ),
                            decreases files@.len() - i,
                        {
                            let ghost pre = r@.map_values(|s: String| s@);
                            proof {
                                assert(files@.map_values(|s: String| s@)[i as int]
                                    == fv[i as int]);
                                assert(fv.take(i as int + 1).drop_last() =~= fv.take(i as int));
                                assert(fv.take(i as int + 1).last() == fv[i as int]);
                            }
                            if path_matches(files[i].as_str(), query, exact_match) {
                                let p = files[i].clone();
                                r.push(p);
                                proof {
                                    assert(r@.map_values(|s: String| s@) =~= pre.push(
                                        fv[i as int],
                                    ));
                                }
                            }
                            i = i + 1;
                        }
                        proof {
                            assert(fv.take(fv.len() as int) =~= fv);
                        }
                        r
                    },
                }
            },
        }
    }
}

} // verus!
