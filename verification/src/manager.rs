//! The manifest index: the central structure aggregating every version of
//! each package, with its history ring and its model of the per-version
//! cache store.  Reconciliation (`add`, `remove`, `flush`, `resync`) and
//! the read queries live here.

use vstd::prelude::*;

use crate::cache::{
    contains_spec, fill_ok, filled_state, is_dirty_spec, ArchiveData, ArchiveOutcome,
    ArchiveOutcomeView, CacheEntryView, CacheStateView, NPFCacheEntry,
};
use crate::codec::{
    decode_path_spec, parse_npf_path, valid_name, NPFPackageIDError, PackageID, PackageIdView,
    PackageShortName, ShortNameView,
};
use crate::errors::IndexError;
use crate::history::{history_add, history_wf, History, HistoryEntryView};
use crate::manifest::{
    pm_fresh, pm_remove_version, pm_upsert, Manifest, ManifestView, PackageManifest,
    PackageManifestView,
};
use crate::strutil::{split_on, split_string, str_eq};
use crate::version::Version;

verus! {

/// The mathematical state of the index.
pub struct ManagerView {
    pub repository: Seq<char>,
    pub manifests: Seq<PackageManifestView>,
    pub history: Seq<HistoryEntryView>,
    pub cache: Seq<CacheEntryView>,
}

// ---------------------------------------------------------------------------
// Lookups
// ---------------------------------------------------------------------------

/// The first index of the aggregate record with the given short name.
pub open spec fn find_pm_index(mans: Seq<PackageManifestView>, short: ShortNameView) -> Option<
    int,
>
    decreases mans.len(),
{
    if mans.len() == 0 {
        None
    } else if mans[0].short_name() == short {
        Some(0)
    } else {
        match find_pm_index(mans.drop_first(), short) {
            None => None,
            Some(i) => Some(i + 1),
        }
    }
}

pub proof fn lemma_find_pm_index_spec(mans: Seq<PackageManifestView>, short: ShortNameView)
    ensures
        find_pm_index(mans, short) matches Some(i) ==> 0 <= i < mans.len()
            && mans[i].short_name() == short && (forall|j: int|
            0 <= j < i ==> (#[trigger] mans[j]).short_name() != short),
        find_pm_index(mans, short) is None ==> forall|j: int|
            0 <= j < mans.len() ==> (#[trigger] mans[j]).short_name() != short,
    decreases mans.len(),
{
    if mans.len() > 0 && mans[0].short_name() != short {
        let d = mans.drop_first();
        lemma_find_pm_index_spec(d, short);
        assert(forall|j: int| 0 <= j < d.len() ==> d[j] == mans[j + 1]);
        match find_pm_index(d, short) {
            None => {
                assert forall|j: int| 0 <= j < mans.len() implies (
                #[trigger] mans[j]).short_name() != short by {
                    if j > 0 {
                        assert(d[j - 1] == mans[j]);
                    }
                }
            },
            Some(i) => {
                assert(d[i] == mans[i + 1]);
                assert forall|j: int| 0 <= j < i + 1 implies (#[trigger] mans[j]).short_name()
                    != short by {
                    if j > 0 {
                        assert(d[j - 1] == mans[j]);
                    }
                }
            },
        }
    }
}

/// The first index of the cache entry with the given identifier.
pub open spec fn find_cache_index(cache: Seq<CacheEntryView>, id: PackageIdView) -> Option<int>
    decreases cache.len(),
{
    if cache.len() == 0 {
        None
    } else if cache[0].id == id {
        Some(0)
    } else {
        match find_cache_index(cache.drop_first(), id) {
            None => None,
            Some(i) => Some(i + 1),
        }
    }
}

pub proof fn lemma_find_cache_index_spec(cache: Seq<CacheEntryView>, id: PackageIdView)
    ensures
        find_cache_index(cache, id) matches Some(i) ==> 0 <= i < cache.len() && cache[i].id == id
            && (forall|j: int| 0 <= j < i ==> (#[trigger] cache[j]).id != id),
        find_cache_index(cache, id) is None ==> forall|j: int|
            0 <= j < cache.len() ==> (#[trigger] cache[j]).id != id,
    decreases cache.len(),
{
    if cache.len() > 0 && cache[0].id != id {
        let d = cache.drop_first();
        lemma_find_cache_index_spec(d, id);
        assert(forall|j: int| 0 <= j < d.len() ==> d[j] == cache[j + 1]);
        match find_cache_index(d, id) {
            None => {
                assert forall|j: int| 0 <= j < cache.len() implies (#[trigger] cache[j]).id
                    != id by {
                    if j > 0 {
                        assert(d[j - 1] == cache[j]);
                    }
                }
            },
            Some(i) => {
                assert(d[i] == cache[i + 1]);
                assert forall|j: int| 0 <= j < i + 1 implies (#[trigger] cache[j]).id != id by {
                    if j > 0 {
                        assert(d[j - 1] == cache[j]);
                    }
                }
            },
        }
    }
}

/// The stored state of the cache entry for an identifier, if any.
pub open spec fn cache_state_of(cache: Seq<CacheEntryView>, id: PackageIdView) -> Option<
    CacheStateView,
> {
    match find_cache_index(cache, id) {
        None => None,
        Some(i) => cache[i].state,
    }
}

/// The store after writing an entry's state: `None` removes the entry,
/// `Some` fills or replaces it.
pub open spec fn cache_store(
    cache: Seq<CacheEntryView>,
    id: PackageIdView,
    state: Option<CacheStateView>,
) -> Seq<CacheEntryView> {
    match (find_cache_index(cache, id), state) {
        (Some(i), None) => cache.remove(i),
        (Some(i), Some(st)) => cache.update(i, CacheEntryView { id, state: Some(st) }),
        (None, None) => cache,
        (None, Some(st)) => cache.push(CacheEntryView { id, state: Some(st) }),
    }
}

/// The aggregate record the index holds for a short name.
pub open spec fn manifest_of_spec(mv: ManagerView, short: ShortNameView) -> Option<
    PackageManifestView,
> {
    match find_pm_index(mv.manifests, short) {
        None => None,
        Some(i) => Some(mv.manifests[i]),
    }
}

// ---------------------------------------------------------------------------
// Well-formedness
// ---------------------------------------------------------------------------

impl ManagerView {
    pub open spec fn wf(self) -> bool {
        &&& valid_name(self.repository)
        &&& forall|i: int|
            0 <= i < self.manifests.len() ==> (#[trigger] self.manifests[i]).wf()
                && self.manifests[i].repository == self.repository
                && self.manifests[i].versions.len() > 0
        &&& forall|i: int, j: int|
            0 <= i < j < self.manifests.len() ==> (#[trigger] self.manifests[i]).short_name() != (
            #[trigger] self.manifests[j]).short_name()
        &&& history_wf(self.history)
        &&& forall|i: int, j: int|
            0 <= i < j < self.cache.len() ==> (#[trigger] self.cache[i]).id != (
            #[trigger] self.cache[j]).id
        &&& forall|i: int| 0 <= i < self.cache.len() ==> (#[trigger] self.cache[i]).state is Some
    }
}

/// Writing one entry keeps identifiers distinct and states present.
pub proof fn lemma_cache_store_wf(
    cache: Seq<CacheEntryView>,
    id: PackageIdView,
    state: Option<CacheStateView>,
)
    requires
        forall|i: int, j: int|
            0 <= i < j < cache.len() ==> (#[trigger] cache[i]).id != (#[trigger] cache[j]).id,
        forall|i: int| 0 <= i < cache.len() ==> (#[trigger] cache[i]).state is Some,
    ensures
        forall|i: int, j: int|
            0 <= i < j < cache_store(cache, id, state).len() ==> (#[trigger] cache_store(
                cache,
                id,
                state,
            )[i]).id != (#[trigger] cache_store(cache, id, state)[j]).id,
        forall|i: int|
            0 <= i < cache_store(cache, id, state).len() ==> (#[trigger] cache_store(
                cache,
                id,
                state,
            )[i]).state is Some,
        cache_state_of(cache_store(cache, id, state), id) == state,
        forall|other: PackageIdView|
            other != id ==> #[trigger] cache_state_of(cache_store(cache, id, state), other)
                == cache_state_of(cache, other),
{
    lemma_find_cache_index_spec(cache, id);
    let out = cache_store(cache, id, state);
    match (find_cache_index(cache, id), state) {
        (Some(i), None) => {
            assert forall|a: int, b: int| 0 <= a < b < out.len() implies (#[trigger] out[a]).id
                != (#[trigger] out[b]).id by {
                let a0: int = if a < i {
                    a
                } else {
                    a + 1
                };
                let b0: int = if b < i {
                    b
                } else {
                    b + 1
                };
                assert(out[a] == cache[a0] && out[b] == cache[b0]);
            }
            assert forall|a: int| 0 <= a < out.len() implies (#[trigger] out[a]).state is Some by {
                let a0: int = if a < i {
                    a
                } else {
                    a + 1
                };
                assert(out[a] == cache[a0]);
            }
            lemma_cache_store_lookup(cache, id, state);
        },
        (Some(i), Some(st)) => {
            assert forall|a: int, b: int| 0 <= a < b < out.len() implies (#[trigger] out[a]).id
                != (#[trigger] out[b]).id by {
                if a != i && b != i {
                    assert(out[a] == cache[a] && out[b] == cache[b]);
                } else if a == i {
                    assert(out[b] == cache[b]);
                    assert(cache[i].id != cache[b].id);
                } else {
                    assert(out[a] == cache[a]);
                    assert(cache[a].id != cache[i].id);
                }
            }
            lemma_cache_store_lookup(cache, id, state);
        },
        (None, None) => {
            lemma_cache_store_lookup(cache, id, state);
        },
        (None, Some(st)) => {
            assert forall|a: int, b: int| 0 <= a < b < out.len() implies (#[trigger] out[a]).id
                != (#[trigger] out[b]).id by {
                if b < out.len() - 1 {
                    assert(out[a] == cache[a] && out[b] == cache[b]);
                } else {
                    assert(out[a] == cache[a]);
                    assert(cache[a].id != id);
                }
            }
            lemma_cache_store_lookup(cache, id, state);
        },
    }
}

/// Looking up after a write: the written entry reads back; others are
/// untouched.
proof fn lemma_cache_store_lookup(
    cache: Seq<CacheEntryView>,
    id: PackageIdView,
    state: Option<CacheStateView>,
)
    requires
        forall|i: int, j: int|
            0 <= i < j < cache.len() ==> (#[trigger] cache[i]).id != (#[trigger] cache[j]).id,
    ensures
        cache_state_of(cache_store(cache, id, state), id) == state,
        forall|other: PackageIdView|
            other != id ==> #[trigger] cache_state_of(cache_store(cache, id, state), other)
                == cache_state_of(cache, other),
{
    lemma_find_cache_index_spec(cache, id);
    let out = cache_store(cache, id, state);
    assert forall|q: PackageIdView| true implies #[trigger] cache_state_of(out, q) == (if q == id {
        state
    } else {
        cache_state_of(cache, q)
    }) by {
        lemma_find_cache_index_spec(cache, q);
        lemma_find_cache_index_spec(out, q);
        match (find_cache_index(cache, id), state) {
            (Some(i), None) => {
                match find_cache_index(out, q) {
                    Some(k) => {
                        let k0: int = if k < i {
                            k
                        } else {
                            k + 1
                        };
                        assert(out[k] == cache[k0]);
                        if q == id {
                            assert(cache[k0].id == cache[i].id);
                            assert(false);
                        } else {
                            match find_cache_index(cache, q) {
                                Some(l) => {
                                    if l != k0 {
                                        assert(cache[l].id == cache[k0].id);
                                    }
                                },
                                None => {
                                    assert(cache[k0].id != q);
                                },
                            }
                        }
                    },
                    None => {
                        if q != id {
                            match find_cache_index(cache, q) {
                                Some(l) => {
                                    assert(l != i);
                                    let k: int = if l < i {
                                        l
                                    } else {
                                        l - 1
                                    };
                                    assert(out[k] == cache[l]);
                                    assert(out[k].id != q);
                                    assert(false);
                                },
                                None => {},
                            }
                        }
                    },
                }
            },
            (Some(i), Some(st)) => {
                match find_cache_index(out, q) {
                    Some(k) => {
                        if k == i {
                            if q == id {
                            } else {
                                assert(out[k].id == id);
                                assert(false);
                            }
                        } else {
                            assert(out[k] == cache[k]);
                            if q == id {
                                assert(cache[k].id == id && cache[i].id == id);
                                assert(false);
                            } else {
                                match find_cache_index(cache, q) {
                                    Some(l) => {
                                        if l != k {
                                            assert(cache[l].id == cache[k].id);
                                        }
                                    },
                                    None => {
                                        assert(cache[k].id != q);
                                    },
                                }
                            }
                        }
                    },
                    None => {
                        if q == id {
                            assert(out[i].id == id);
                            assert(false);
                        } else {
                            match find_cache_index(cache, q) {
                                Some(l) => {
                                    assert(l != i ==> out[l] == cache[l]);
                                    if l == i {
                                        assert(cache[l].id == id);
                                    } else {
                                        assert(out[l].id != q);
                                        assert(false);
                                    }
                                },
                                None => {},
                            }
                        }
                    },
                }
            },
            (None, None) => {},
            (None, Some(st)) => {
                match find_cache_index(out, q) {
                    Some(k) => {
                        if k < out.len() - 1 {
                            assert(out[k] == cache[k]);
                            if q == id {
                                assert(cache[k].id == id);
                                assert(false);
                            } else {
                                match find_cache_index(cache, q) {
                                    Some(l) => {
                                        if l != k {
                                            assert(cache[l].id == cache[k].id);
                                        }
                                    },
                                    None => {
                                        assert(cache[k].id != q);
                                    },
                                }
                            }
                        } else {
                            if q == id {
                            } else {
                                assert(out[k].id == id);
                                assert(false);
                            }
                        }
                    },
                    None => {
                        if q == id {
                            assert(out[out.len() - 1].id == id);
                            assert(false);
                        } else {
                            match find_cache_index(cache, q) {
                                Some(l) => {
                                    assert(out[l] == cache[l]);
                                    assert(out[l].id != q);
                                    assert(false);
                                },
                                None => {},
                            }
                        }
                    },
                }
            },
        }
    }
}


// ---------------------------------------------------------------------------
// The reconciliation transitions
// ---------------------------------------------------------------------------

/// How one reconciliation step ended.
pub enum OpStatus {
    /// The step completed (including an ignored non-archive path).
    Done,
    /// The path does not follow the naming convention; nothing changed.
    BadPath,
    /// The archive could not be read or lacks its payload; the entry was
    /// purged.
    BadArchive,
    /// The archive's manifest disagrees with its location; the entry was
    /// purged.
    WrongIdentity,
}

pub open spec fn with_cache(mv: ManagerView, cache: Seq<CacheEntryView>) -> ManagerView {
    ManagerView { repository: mv.repository, manifests: mv.manifests, history: mv.history, cache }
}

/// The aggregation step: the record for the short name (fresh if absent)
/// absorbs the manifest, and the updated record enters the history.
pub open spec fn spec_add_manifest(
    mv: ManagerView,
    short: ShortNameView,
    m: ManifestView,
) -> ManagerView {
    let pm0 = match find_pm_index(mv.manifests, short) {
        Some(i) => mv.manifests[i],
        None => pm_fresh(short, mv.repository, m.metadata),
    };
    let pm1 = pm_upsert(pm0, m);
    let manifests = match find_pm_index(mv.manifests, short) {
        Some(i) => mv.manifests.update(i, pm1),
        None => mv.manifests.push(pm1),
    };
    ManagerView {
        repository: mv.repository,
        manifests,
        history: history_add(mv.history, pm1),
        cache: mv.cache,
    }
}

pub proof fn lemma_spec_add_manifest_wf(mv: ManagerView, short: ShortNameView, m: ManifestView)
    requires
        mv.wf(),
    ensures
        spec_add_manifest(mv, short, m).wf(),
        spec_add_manifest(mv, short, m).repository == mv.repository,
        spec_add_manifest(mv, short, m).cache == mv.cache,
{
    lemma_find_pm_index_spec(mv.manifests, short);
    let pm0 = match find_pm_index(mv.manifests, short) {
        Some(i) => mv.manifests[i],
        None => pm_fresh(short, mv.repository, m.metadata),
    };
    assert(pm0.wf()) by {
        match find_pm_index(mv.manifests, short) {
            Some(i) => {},
            None => {
                assert(pm0.versions.len() == 0);
            },
        }
    }
    crate::manifest::lemma_pm_upsert_wf(pm0, m);
    let pm1 = pm_upsert(pm0, m);
    assert(pm1.short_name() == short) by {
        match find_pm_index(mv.manifests, short) {
            Some(i) => {},
            None => {},
        }
    }
    let out = spec_add_manifest(mv, short, m);
    assert forall|i: int, j: int| 0 <= i < j < out.manifests.len() implies (
    #[trigger] out.manifests[i]).short_name() != (#[trigger] out.manifests[j]).short_name() by {
        match find_pm_index(mv.manifests, short) {
            Some(k) => {
                if i != k && j != k {
                    assert(out.manifests[i] == mv.manifests[i]);
                    assert(out.manifests[j] == mv.manifests[j]);
                } else if i == k {
                    assert(out.manifests[j] == mv.manifests[j]);
                    assert(mv.manifests[j].short_name() != short);
                } else {
                    assert(out.manifests[i] == mv.manifests[i]);
                    assert(mv.manifests[i].short_name() != short);
                }
            },
            None => {
                if j < out.manifests.len() - 1 {
                    assert(out.manifests[i] == mv.manifests[i]);
                    assert(out.manifests[j] == mv.manifests[j]);
                } else {
                    assert(out.manifests[i] == mv.manifests[i]);
                    assert(mv.manifests[i].short_name() != short);
                }
            },
        }
    }
    assert forall|i: int| 0 <= i < out.manifests.len() implies (#[trigger] out.manifests[i]).wf()
        && out.manifests[i].repository == out.repository && out.manifests[i].versions.len()
        > 0 by {
        match find_pm_index(mv.manifests, short) {
            Some(k) => {
                if i != k {
                    assert(out.manifests[i] == mv.manifests[i]);
                }
            },
            None => {
                if i < out.manifests.len() - 1 {
                    assert(out.manifests[i] == mv.manifests[i]);
                }
            },
        }
    }
    crate::history::lemma_history_add_wf(mv.history, pm1);
}

/// One archive added (or re-added): decode the location, fill the cache
/// entry, cross-validate the manifest against the location, aggregate.
/// Any failure from the fill on purges the entry.
pub open spec fn spec_add(
    mv: ManagerView,
    path: Seq<char>,
    outcome: ArchiveOutcomeView,
    t: int,
) -> (ManagerView, OpStatus) {
    match decode_path_spec(path, mv.repository) {
        None => (mv, OpStatus::BadPath),
        Some(id) => match outcome {
            ArchiveOutcomeView::Unreadable(_) => (
                with_cache(mv, cache_store(mv.cache, id, None)),
                OpStatus::BadArchive,
            ),
            ArchiveOutcomeView::Parsed(data) => {
                if !fill_ok(data) {
                    (with_cache(mv, cache_store(mv.cache, id, None)), OpStatus::BadArchive)
                } else if data.manifest.name != id.name || data.manifest.category != id.category
                    || data.manifest.version != id.version {
                    (with_cache(mv, cache_store(mv.cache, id, None)), OpStatus::WrongIdentity)
                } else {
                    (
                        with_cache(
                            spec_add_manifest(mv, id.short_name(), data.manifest),
                            cache_store(mv.cache, id, Some(filled_state(data, t))),
                        ),
                        OpStatus::Done,
                    )
                }
            },
        },
    }
}

/// One archive removed: purge its cache entry; drop its version from the
/// aggregate record, and the whole record once no version remains.
pub open spec fn spec_remove(mv: ManagerView, path: Seq<char>) -> (ManagerView, OpStatus) {
    match decode_path_spec(path, mv.repository) {
        None => (mv, OpStatus::BadPath),
        Some(id) => {
            let cache = cache_store(mv.cache, id, None);
            let manifests = match find_pm_index(mv.manifests, id.short_name()) {
                None => mv.manifests,
                Some(i) => {
                    let pm1 = pm_remove_version(mv.manifests[i], id.version);
                    if pm1.versions.len() == 0 {
                        mv.manifests.remove(i)
                    } else {
                        mv.manifests.update(i, pm1)
                    }
                },
            };
            (
                ManagerView { repository: mv.repository, manifests, history: mv.history, cache },
                OpStatus::Done,
            )
        },
    }
}

/// Whether the path carries the reserved archive extension.
pub open spec fn has_nest_ext(path: Seq<char>) -> bool {
    let fname = split_on(path, '/').last();
    let fparts = split_on(fname, '.');
    &&& fparts.len() >= 2
    &&& crate::strutil::join_on(fparts.drop_last(), '.').len() > 0
    &&& fparts.last() == crate::codec::nest_ext_chars()
}

/// One reconciliation step for an arbitrary path: paths without the archive
/// extension are ignored; a present file is added, an absent one removed.
pub open spec fn spec_flush(
    mv: ManagerView,
    path: Seq<char>,
    on_disk: Option<ArchiveOutcomeView>,
    t: int,
) -> (ManagerView, OpStatus) {
    if !has_nest_ext(path) {
        (mv, OpStatus::Done)
    } else {
        match on_disk {
            Some(outcome) => spec_add(mv, path, outcome, t),
            None => spec_remove(mv, path),
        }
    }
}

pub proof fn lemma_spec_add_wf(mv: ManagerView, path: Seq<char>, outcome: ArchiveOutcomeView, t: int)
    requires
        mv.wf(),
    ensures
        spec_add(mv, path, outcome, t).0.wf(),
        spec_add(mv, path, outcome, t).0.repository == mv.repository,
{
    match decode_path_spec(path, mv.repository) {
        None => {},
        Some(id) => {
            lemma_cache_store_wf(mv.cache, id, None);
            match outcome {
                ArchiveOutcomeView::Unreadable(_) => {},
                ArchiveOutcomeView::Parsed(data) => {
                    lemma_cache_store_wf(mv.cache, id, Some(filled_state(data, t)));
                    lemma_spec_add_manifest_wf(mv, id.short_name(), data.manifest);
                },
            }
        },
    }
}

pub proof fn lemma_spec_remove_wf(mv: ManagerView, path: Seq<char>)
    requires
        mv.wf(),
    ensures
        spec_remove(mv, path).0.wf(),
        spec_remove(mv, path).0.repository == mv.repository,
        spec_remove(mv, path).0.history == mv.history,
{
    match decode_path_spec(path, mv.repository) {
        None => {},
        Some(id) => {
            lemma_cache_store_wf(mv.cache, id, None);
            lemma_find_pm_index_spec(mv.manifests, id.short_name());
            let out = spec_remove(mv, path).0;
            match find_pm_index(mv.manifests, id.short_name()) {
                None => {},
                Some(i) => {
                    let pm1 = pm_remove_version(mv.manifests[i], id.version);
                    crate::manifest::lemma_pm_remove_wf(mv.manifests[i], id.version);
                    if pm1.versions.len() == 0 {
                        assert forall|a: int, b: int|
                            0 <= a < b < out.manifests.len() implies (
                        #[trigger] out.manifests[a]).short_name() != (
                        #[trigger] out.manifests[b]).short_name() by {
                            let a0: int = if a < i {
                                a
                            } else {
                                a + 1
                            };
                            let b0: int = if b < i {
                                b
                            } else {
                                b + 1
                            };
                            assert(out.manifests[a] == mv.manifests[a0]);
                            assert(out.manifests[b] == mv.manifests[b0]);
                        }
                        assert forall|a: int| 0 <= a < out.manifests.len() implies (
                        #[trigger] out.manifests[a]).wf() && out.manifests[a].repository
                            == out.repository && out.manifests[a].versions.len() > 0 by {
                            let a0: int = if a < i {
                                a
                            } else {
                                a + 1
                            };
                            assert(out.manifests[a] == mv.manifests[a0]);
                        }
                    } else {
                        assert forall|a: int, b: int|
                            0 <= a < b < out.manifests.len() implies (
                        #[trigger] out.manifests[a]).short_name() != (
                        #[trigger] out.manifests[b]).short_name() by {
                            if a != i {
                                assert(out.manifests[a] == mv.manifests[a]);
                            }
                            if b != i {
                                assert(out.manifests[b] == mv.manifests[b]);
                            }
                        }
                        assert forall|a: int| 0 <= a < out.manifests.len() implies (
                        #[trigger] out.manifests[a]).wf() && out.manifests[a].repository
                            == out.repository && out.manifests[a].versions.len() > 0 by {
                            if a != i {
                                assert(out.manifests[a] == mv.manifests[a]);
                            }
                        }
                    }
                },
            }
        },
    }
}

pub proof fn lemma_spec_flush_wf(
    mv: ManagerView,
    path: Seq<char>,
    on_disk: Option<ArchiveOutcomeView>,
    t: int,
)
    requires
        mv.wf(),
    ensures
        spec_flush(mv, path, on_disk, t).0.wf(),
        spec_flush(mv, path, on_disk, t).0.repository == mv.repository,
{
    if has_nest_ext(path) {
        match on_disk {
            Some(outcome) => {
                lemma_spec_add_wf(mv, path, outcome, t);
            },
            None => {
                lemma_spec_remove_wf(mv, path);
            },
        }
    }
}


// ---------------------------------------------------------------------------
// The manager
// ---------------------------------------------------------------------------

/// Manager of all archives: the in-memory index of aggregate records, the
/// history ring, and the model of the per-version cache store.
pub struct NPFManager {
    repository: String,
    manifests: Vec<PackageManifest>,
    history: History,
    cache: Vec<NPFCacheEntry>,
}

impl View for NPFManager {
    type V = ManagerView;

    closed spec fn view(&self) -> ManagerView {
        ManagerView {
            repository: self.repository@,
            manifests: self.manifests@.map_values(|p: PackageManifest| p@),
            history: self.history@,
            cache: self.cache@.map_values(|e: NPFCacheEntry| e@),
        }
    }
}

impl NPFManager {
    /// An empty index for the given repository.
    pub fn new(repository: String) -> (r: Self)
        requires
            valid_name(repository@),
        ensures
            r@.repository == repository@,
            r@.manifests == Seq::<PackageManifestView>::empty(),
            r@.history == Seq::<HistoryEntryView>::empty(),
            r@.cache == Seq::<CacheEntryView>::empty(),
            r@.wf(),
    {
        let r = NPFManager {
            repository,
            manifests: Vec::new(),
            history: History::new(),
            cache: Vec::new(),
        };
        proof {
            assert(r@.manifests =~= Seq::<PackageManifestView>::empty());
            assert(r@.cache =~= Seq::<CacheEntryView>::empty());
        }
        r
    }

    /// How many packages the index knows.
    pub fn manifests_count(&self) -> (r: usize)
        ensures
            r == self@.manifests.len(),
    {
        self.manifests.len()
    }

    /// All aggregate records.
    pub fn manifests(&self) -> (r: &Vec<PackageManifest>)
        ensures
            r@.map_values(|p: PackageManifest| p@) == self@.manifests,
    {
        &self.manifests
    }

    /// The history of the most recently updated packages.
    pub fn history(&self) -> (r: &History)
        ensures
            r@ == self@.history,
    {
        &self.history
    }

    /// The first position of the record with the given short name.
    fn find_pm(&self, short: &PackageShortName) -> (r: Option<usize>)
        ensures
            r matches Some(i) ==> i < self@.manifests.len() && find_pm_index(
                self@.manifests,
                short@,
            ) == Some(i as int),
            r is None ==> find_pm_index(self@.manifests, short@) is None,
    {
        let ghost mans = self@.manifests;
        let mut i: usize = 0;
        while i < self.manifests.len()
            invariant
                0 <= i <= self.manifests@.len(),
                mans == self@.manifests,
                mans == self.manifests@.map_values(|p: PackageManifest| p@),
                forall|j: int| 0 <= j < i ==> (#[trigger] mans[j]).short_name() != short@,
            decreases self.manifests@.len() - i,
        {
            let pm_short = self.manifests[i].short_name();
            proof {
                assert(mans[i as int] == self.manifests@[i as int]@);
            }
            if pm_short.same_as(short) {
                proof {
                    lemma_find_pm_index_spec(mans, short@);
                    match find_pm_index(mans, short@) {
                        None => {
                            assert(mans[i as int].short_name() != short@);
                        },
                        Some(k) => {
                            if k < i {
                                assert(mans[k].short_name() != short@);
                            }
                            if k > i {
                                assert(mans[i as int].short_name() != short@);
                            }
                        },
                    }
                }
                return Some(i);
            }
            i = i + 1;
        }
        proof {
            lemma_find_pm_index_spec(mans, short@);
            match find_pm_index(mans, short@) {
                None => {},
                Some(k) => {
                    assert(mans[k].short_name() != short@);
                },
            }
        }
        None
    }

    /// Finds the record with the given short name.
    pub fn manifest_of(&self, name: &PackageShortName) -> (r: Option<&PackageManifest>)
        ensures
            r matches Some(pm) ==> manifest_of_spec(self@, name@) == Some(pm@),
            r is None ==> manifest_of_spec(self@, name@) is None,
    {
        match self.find_pm(name) {
            Some(i) => {
                proof {
                    assert(self@.manifests[i as int] == self.manifests@[i as int]@);
                }
                Some(&self.manifests[i])
            },
            None => None,
        }
    }

    /// The first position of the cache entry with the given identifier.
    fn find_cache(&self, id: &PackageID) -> (r: Option<usize>)
        ensures
            r matches Some(i) ==> i < self@.cache.len() && find_cache_index(self@.cache, id@)
                == Some(i as int),
            r is None ==> find_cache_index(self@.cache, id@) is None,
    {
        let ghost cv = self@.cache;
        let mut i: usize = 0;
        while i < self.cache.len()
            invariant
                0 <= i <= self.cache@.len(),
                cv == self@.cache,
                cv == self.cache@.map_values(|e: NPFCacheEntry| e@),
                forall|j: int| 0 <= j < i ==> (#[trigger] cv[j]).id != id@,
            decreases self.cache@.len() - i,
        {
            proof {
                assert(cv[i as int] == self.cache@[i as int]@);
            }
            if self.cache[i].id.same_as(id) {
                proof {
                    lemma_find_cache_index_spec(cv, id@);
                    match find_cache_index(cv, id@) {
                        None => {
                            assert(cv[i as int].id != id@);
                        },
                        Some(k) => {
                            if k < i {
                                assert(cv[k].id != id@);
                            }
                            if k > i {
                                assert(cv[i as int].id != id@);
                            }
                        },
                    }
                }
                return Some(i);
            }
            i = i + 1;
        }
        proof {
            lemma_find_cache_index_spec(cv, id@);
            match find_cache_index(cv, id@) {
                None => {},
                Some(k) => {
                    assert(cv[k].id != id@);
                },
            }
        }
        None
    }

    /// A handle on the cache entry for an identifier: its stored state, or
    /// a fresh empty entry.
    pub fn cache_entry_of(&self, id: &PackageID) -> (r: NPFCacheEntry)
        ensures
            r@.id == id@,
            r@.state == cache_state_of(self@.cache, id@),
    {
        match self.find_cache(id) {
            Some(i) => {
                proof {
                    lemma_find_cache_index_spec(self@.cache, id@);
                    assert(self@.cache[i as int] == self.cache@[i as int]@);
                }
                self.cache[i].clone()
            },
            None => NPFCacheEntry::from(id),
        }
    }

    /// Writes a handle's state back into the store: an empty handle removes
    /// the entry, a filled one replaces or appends it.
    fn store_entry(&mut self, entry: NPFCacheEntry)
        ensures
            final(self)@.repository == old(self)@.repository,
            final(self)@.manifests == old(self)@.manifests,
            final(self)@.history == old(self)@.history,
            final(self)@.cache == cache_store(old(self)@.cache, entry@.id, entry@.state),
    {
        let ghost cv = self@.cache;
        let has_state = entry.is_present();
        match self.find_cache(&entry.id) {
            Some(i) => {
                if has_state {
                    let ghost ev = entry@;
                    self.cache.set(i, entry);
                    proof {
                        assert(self@.cache =~= cv.update(
                            i as int,
                            CacheEntryView { id: ev.id, state: ev.state },
                        ));
                    }
                } else {
                    let ghost ev = entry@;
                    self.cache.remove(i);
                    proof {
                        assert(self@.cache =~= cv.remove(i as int));
                    }
                }
            },
            None => {
                if has_state {
                    let ghost ev = entry@;
                    self.cache.push(entry);
                    proof {
                        assert(self@.cache =~= cv.push(
                            CacheEntryView { id: ev.id, state: ev.state },
                        ));
                    }
                }
            },
        }
    }

    /// The aggregation step: the record for the short name absorbs the
    /// manifest and the history records the update.
    fn add_manifest(&mut self, short_name: PackageShortName, manifest: &Manifest)
        ensures
            final(self)@ == spec_add_manifest(old(self)@, short_name@, manifest@),
    {
        let ghost mv0 = self@;
        match self.find_pm(&short_name) {
            Some(i) => {
                let ghost mans = self@.manifests;
                let mut pm = self.manifests[i].clone();
                proof {
                    assert(mans[i as int] == self.manifests@[i as int]@);
                }
                pm.upsert(manifest);
                let snapshot = pm.clone();
                self.manifests.set(i, pm);
                self.history.add_manifest(snapshot);
                proof {
                    assert(self@.manifests =~= mans.update(
                        i as int,
                        pm_upsert(mans[i as int], manifest@),
                    ));
                }
            },
            None => {
                let ghost mans = self@.manifests;
                let mut pm = PackageManifest {
                    name: short_name.name,
                    category: short_name.category,
                    repository: self.repository.clone(),
                    metadata: manifest.metadata.clone(),
                    versions: Vec::new(),
                };
                proof {
                    assert(pm@.versions =~= Seq::<
                        (crate::version::VersionView, crate::manifest::VersionDataView),
                    >::empty());
                    assert(pm@ == pm_fresh(short_name@, mv0.repository, manifest@.metadata));
                }
                pm.upsert(manifest);
                let snapshot = pm.clone();
                self.manifests.push(pm);
                self.history.add_manifest(snapshot);
                proof {
                    assert(self@.manifests =~= mans.push(
                        pm_upsert(
                            pm_fresh(short_name@, mv0.repository, manifest@.metadata),
                            manifest@,
                        ),
                    ));
                }
            },
        }
    }
}


// ---------------------------------------------------------------------------
// Reconciliation
// ---------------------------------------------------------------------------

/// The view of an optional archive outcome.
pub open spec fn opt_outcome_view(o: Option<&ArchiveOutcome>) -> Option<ArchiveOutcomeView> {
    match o {
        Some(x) => Some(x@),
        None => None,
    }
}

impl NPFManager {
    /// Adds (or re-adds) one archive: decodes its location, fills its cache
    /// entry from the explored archive, cross-validates the manifest's
    /// declared identity against the location, then aggregates.  Any
    /// failure from the fill on purges the entry and is returned; the rest
    /// of the index is untouched.
    pub fn add(&mut self, npf: &str, outcome: &ArchiveOutcome, fill_time: i64) -> (r: Result<
        (),
        IndexError,
    >)
        requires
            old(self)@.wf(),
        ensures
            final(self)@ == spec_add(old(self)@, npf@, outcome@, fill_time as int).0,
            final(self)@.wf(),
            r is Ok <==> spec_add(old(self)@, npf@, outcome@, fill_time as int).1 is Done,
            r matches Err(e) ==> (e is PathParse <==> spec_add(
                old(self)@,
                npf@,
                outcome@,
                fill_time as int,
            ).1 is BadPath),
            r matches Err(e) ==> (e is ArchiveFormat <==> spec_add(
                old(self)@,
                npf@,
                outcome@,
                fill_time as int,
            ).1 is BadArchive),
            r matches Err(e) ==> (e is PackageIdMismatch <==> spec_add(
                old(self)@,
                npf@,
                outcome@,
                fill_time as int,
            ).1 is WrongIdentity),
    {
        proof {
            lemma_spec_add_wf(old(self)@, npf@, outcome@, fill_time as int);
        }
        let id = match parse_npf_path(npf, &self.repository) {
            Ok(id) => id,
            Err(e) => {
                return Err(IndexError::PathParse(e));
            },
        };
        let mut entry = self.cache_entry_of(&id);
        match outcome {
            ArchiveOutcome::Unreadable(_) => {
                entry.purge();
                self.store_entry(entry);
                Err(IndexError::ArchiveFormat(npf.to_owned()))
            },
            ArchiveOutcome::Parsed(data) => {
                match entry.fill_with(data, fill_time) {
                    Err(_) => {
                        self.store_entry(entry);
                        Err(IndexError::ArchiveFormat(npf.to_owned()))
                    },
                    Ok(_) => {
                        let manifest = match entry.manifest() {
                            Ok(m) => m,
                            Err(_) => {
                                proof {
                                    assert(false);
                                }
                                return Err(IndexError::ArchiveFormat(npf.to_owned()));
                            },
                        };
                        let same_identity = str_eq(manifest.name.as_str(), id.name.as_str())
                            && str_eq(manifest.category.as_str(), id.category.as_str())
                            && manifest.version.same_as(&id.version);
                        if !same_identity {
                            entry.purge();
                            self.store_entry(entry);
                            Err(
                                IndexError::PackageIdMismatch(
                                    NPFPackageIDError(npf.to_owned()),
                                ),
                            )
                        } else {
                            self.store_entry(entry);
                            let short = id.short_name();
                            self.add_manifest(short, &manifest);
                            Ok(())
                        }
                    },
                }
            },
        }
    }

    /// Removes one archive: purges its cache entry and drops its version
    /// from the aggregate record; an emptied record leaves the index.
    pub fn remove(&mut self, npf: &str) -> (r: Result<(), IndexError>)
        requires
            old(self)@.wf(),
        ensures
            final(self)@ == spec_remove(old(self)@, npf@).0,
            final(self)@.wf(),
            r is Ok <==> spec_remove(old(self)@, npf@).1 is Done,
            r matches Err(e) ==> e is PathParse && spec_remove(old(self)@, npf@).1 is BadPath,
    {
        proof {
            lemma_spec_remove_wf(old(self)@, npf@);
        }
        let id = match parse_npf_path(npf, &self.repository) {
            Ok(id) => id,
            Err(e) => {
                return Err(IndexError::PathParse(e));
            },
        };
        let mut entry = self.cache_entry_of(&id);
        if entry.is_present() {
            entry.purge();
        }
        self.store_entry(entry);
        let short = id.short_name();
        match self.find_pm(&short) {
            Some(i) => {
                let ghost mans = self@.manifests;
                let mut pm = self.manifests[i].clone();
                proof {
                    assert(mans[i as int] == self.manifests@[i as int]@);
                }
                pm.remove_version(&id.version);
                if pm.versions.len() == 0 {
                    self.manifests.remove(i);
                    proof {
                        assert(self@.manifests =~= mans.remove(i as int));
                    }
                } else {
                    let ghost pmv = pm@;
                    self.manifests.set(i, pm);
                    proof {
                        assert(self@.manifests =~= mans.update(i as int, pmv));
                    }
                }
            },
            None => {},
        }
        Ok(())
    }

    /// The cached content listing of the identified version: `None` for a
    /// virtual package; an identifier without a cache entry is not found.
    pub fn content_of(&self, id: &PackageID) -> (r: Result<Option<Vec<String>>, IndexError>)
        ensures
            r matches Ok(f) ==> cache_state_of(self@.cache, id@) is Some && (match f {
                Some(v) => cache_state_of(self@.cache, id@).unwrap().filesmap == Some(
                    v@.map_values(|s: String| s@),
                ),
                None => cache_state_of(self@.cache, id@).unwrap().filesmap is None,
            }),
            r is Err <==> cache_state_of(self@.cache, id@) is None,
            r matches Err(e) ==> e is NotFound,
    {
        let entry = self.cache_entry_of(id);
        if entry.is_present() {
            match entry.filesmap() {
                Ok(f) => Ok(f),
                Err(_) => {
                    proof {
                        assert(false);
                    }
                    Err(IndexError::NotFound(crate::codec::encode_path(id)))
                },
            }
        } else {
            Err(IndexError::NotFound(crate::codec::encode_path(id)))
        }
    }

    /// Whether the path carries the reserved archive extension.
    fn has_archive_ext(path: &str) -> (r: bool)
        ensures
            r == has_nest_ext(path@),
    {
        let segs = split_string(path, '/');
        let ghost sv = split_on(path@, '/');
        proof {
            assert(segs@.map_values(|p: String| p@).len() == sv.len());
            assert(segs@.map_values(|p: String| p@)[sv.len() - 1] == sv[sv.len() - 1]);
        }
        let fname = &segs[segs.len() - 1];
        let fparts = split_string(fname.as_str(), '.');
        let ghost fv = split_on(fname@, '.');
        proof {
            assert(fparts@.map_values(|p: String| p@).len() == fv.len());
        }
        if fparts.len() < 2 {
            return false;
        }
        proof {
            assert(fparts@.map_values(|p: String| p@)[0] == fv[0]);
            assert(fparts@.map_values(|p: String| p@)[fv.len() - 1] == fv[fv.len() - 1]);
        }
        let stem_ok = if fparts.len() >= 3 {
            proof {
                let dl = fv.drop_last();
                assert(dl.len() >= 2);
                assert(crate::strutil::join_on(dl, '.') == crate::strutil::join_on(
                    dl.drop_last(),
                    '.',
                ).push('.') + dl.last());
            }
            true
        } else {
            proof {
                let dl = fv.drop_last();
                assert(dl.len() == 1);
                assert(crate::strutil::join_on(dl, '.') == dl[0]);
                assert(dl[0] == fv[0]);
            }
            fparts[0].as_str().unicode_len() > 0
        };
        if !stem_ok {
            return false;
        }
        let last = &fparts[fparts.len() - 1];
        let ext_ok = last.as_str().unicode_len() == 4 && last.as_str().get_char(0) == 'n'
            && last.as_str().get_char(1) == 'e' && last.as_str().get_char(2) == 's'
            && last.as_str().get_char(3) == 't';
        proof {
            if ext_ok {
                assert(last@ =~= crate::codec::nest_ext_chars());
            }
            if last@ == crate::codec::nest_ext_chars() {
                assert(last@.len() == 4);
                assert(last@[0] == 'n' && last@[1] == 'e' && last@[2] == 's' && last@[3] == 't');
            }
        }
        ext_ok
    }

    /// The entry point of reconciliation for one path: paths without the
    /// archive extension are ignored; a path present on disk is added from
    /// its explored archive (`Some`), an absent one is removed (`None`).
    pub fn flush(&mut self, npf: &str, on_disk: Option<&ArchiveOutcome>, fill_time: i64) -> (r:
        Result<(), IndexError>)
        requires
            old(self)@.wf(),
        ensures
            final(self)@ == spec_flush(
                old(self)@,
                npf@,
                opt_outcome_view(on_disk),
                fill_time as int,
            ).0,
            final(self)@.wf(),
            r is Ok <==> spec_flush(
                old(self)@,
                npf@,
                opt_outcome_view(on_disk),
                fill_time as int,
            ).1 is Done,
            r matches Err(e) ==> (e is PathParse <==> spec_flush(
                old(self)@,
                npf@,
                opt_outcome_view(on_disk),
                fill_time as int,
            ).1 is BadPath),
            r matches Err(e) ==> (e is ArchiveFormat <==> spec_flush(
                old(self)@,
                npf@,
                opt_outcome_view(on_disk),
                fill_time as int,
            ).1 is BadArchive),
            r matches Err(e) ==> (e is PackageIdMismatch <==> spec_flush(
                old(self)@,
                npf@,
                opt_outcome_view(on_disk),
                fill_time as int,
            ).1 is WrongIdentity),
    {
        proof {
            lemma_spec_flush_wf(old(self)@, npf@, opt_outcome_view(on_disk), fill_time as int);
        }
        if !Self::has_archive_ext(npf) {
            return Ok(());
        }
        match on_disk {
            Some(outcome) => match self.add(npf, outcome, fill_time) {
                Ok(_) => Ok(()),
                Err(e) => Err(e),
            },
            None => self.remove(npf),
        }
    }
}


// ---------------------------------------------------------------------------
// Full resynchronization
// ---------------------------------------------------------------------------

/// One archive found on disk during a full scan: its location relative to
/// the package directory, its modification time, and what exploring it
/// yielded.
pub struct DiskArchive {
    pub path: String,
    pub mtime: i64,
    pub outcome: ArchiveOutcome,
}

pub struct DiskArchiveView {
    pub path: Seq<char>,
    pub mtime: int,
    pub outcome: ArchiveOutcomeView,
}

impl View for DiskArchive {
    type V = DiskArchiveView;

    open spec fn view(&self) -> DiskArchiveView {
        DiskArchiveView { path: self.path@, mtime: self.mtime as int, outcome: self.outcome@ }
    }
}

/// One resynchronization step: an archive whose cache entry is missing or
/// stale goes through the full flush path; otherwise the cached manifest is
/// aggregated directly, skipping the archive.  A location that does not
/// decode is skipped.
pub open spec fn spec_resync_step(mv: ManagerView, d: DiskArchiveView, t: int) -> ManagerView {
    match decode_path_spec(d.path, mv.repository) {
        None => mv,
        Some(id) => {
            let st = cache_state_of(mv.cache, id);
            if st is None || is_dirty_spec(CacheEntryView { id, state: st }, Some(d.mtime)) {
                spec_flush(mv, d.path, Some(d.outcome), t).0
            } else {
                spec_add_manifest(mv, id.short_name(), st.unwrap().manifest)
            }
        },
    }
}

/// The fold of resynchronization steps over the scanned archives.
pub open spec fn spec_resync_from(mv: ManagerView, disk: Seq<DiskArchiveView>, t: int) -> ManagerView
    decreases disk.len(),
{
    if disk.len() == 0 {
        mv
    } else {
        spec_resync_step(spec_resync_from(mv, disk.drop_last(), t), disk.last(), t)
    }
}

/// The state with the index and history cleared, the cache kept.
pub open spec fn cleared(mv: ManagerView) -> ManagerView {
    ManagerView {
        repository: mv.repository,
        manifests: Seq::empty(),
        history: Seq::empty(),
        cache: mv.cache,
    }
}

/// A full rebuild: clear the index and history, then fold every scanned
/// archive.
pub open spec fn spec_resync(mv: ManagerView, disk: Seq<DiskArchiveView>, t: int) -> ManagerView {
    spec_resync_from(cleared(mv), disk, t)
}

pub proof fn lemma_spec_resync_step_wf(mv: ManagerView, d: DiskArchiveView, t: int)
    requires
        mv.wf(),
    ensures
        spec_resync_step(mv, d, t).wf(),
        spec_resync_step(mv, d, t).repository == mv.repository,
{
    match decode_path_spec(d.path, mv.repository) {
        None => {},
        Some(id) => {
            let st = cache_state_of(mv.cache, id);
            if st is None || is_dirty_spec(CacheEntryView { id, state: st }, Some(d.mtime)) {
                lemma_spec_flush_wf(mv, d.path, Some(d.outcome), t);
            } else {
                lemma_spec_add_manifest_wf(mv, id.short_name(), st.unwrap().manifest);
            }
        },
    }
}

pub proof fn lemma_spec_resync_from_wf(mv: ManagerView, disk: Seq<DiskArchiveView>, t: int)
    requires
        mv.wf(),
    ensures
        spec_resync_from(mv, disk, t).wf(),
        spec_resync_from(mv, disk, t).repository == mv.repository,
    decreases disk.len(),
{
    if disk.len() > 0 {
        lemma_spec_resync_from_wf(mv, disk.drop_last(), t);
        lemma_spec_resync_step_wf(spec_resync_from(mv, disk.drop_last(), t), disk.last(), t);
    }
}

impl NPFManager {
    /// Full rebuild: clears the index and the history, then reconciles
    /// every scanned archive.  An archive whose cache entry is missing or
    /// stale is refilled through `flush`; one with a current entry is
    /// aggregated from the cached manifest without touching the archive.
    /// Per-archive failures are contained: they never stop the remaining
    /// archives from being indexed.
    pub fn resync(&mut self, disk: &Vec<DiskArchive>, fill_time: i64) -> (r: Result<
        (),
        IndexError,
    >)
        requires
            old(self)@.wf(),
        ensures
            final(self)@ == spec_resync(
                old(self)@,
                disk@.map_values(|d: DiskArchive| d@),
                fill_time as int,
            ),
            final(self)@.wf(),
            r is Ok,
    {
        let ghost mv0 = old(self)@;
        let ghost dview = disk@.map_values(|d: DiskArchive| d@);
        self.manifests.clear();
        self.history.clear();
        proof {
            assert(self@.manifests =~= Seq::<PackageManifestView>::empty());
            assert(self@ == cleared(mv0));
            assert(cleared(mv0).wf());
            assert(dview.take(0) =~= Seq::<DiskArchiveView>::empty());
        }
        let mut i: usize = 0;
        while i < disk.len()
            invariant
                0 <= i <= disk@.len(),
                dview == disk@.map_values(|d: DiskArchive| d@),
                self@ == spec_resync_from(cleared(mv0), dview.take(i as int), fill_time as int),
                self@.wf(),
                self@.repository == mv0.repository,
            decreases disk@.len() - i,
        {
            let ghost pre = self@;
            let d = &disk[i];
            proof {
                assert(dview[i as int] == disk@[i as int]@);
                assert(dview.take(i as int + 1).drop_last() =~= dview.take(i as int));
                assert(dview.take(i as int + 1).last() == dview[i as int]);
            }
            match parse_npf_path(d.path.as_str(), &self.repository) {
                Err(_) => {
                    proof {
                        assert(spec_resync_step(pre, dview[i as int], fill_time as int) == pre);
                    }
                },
                Ok(id) => {
                    let entry = self.cache_entry_of(&id);
                    let stale = !entry.is_present() || entry.is_dirty(Some(d.mtime));
                    if stale {
                        let _ = self.flush(d.path.as_str(), Some(&d.outcome), fill_time);
                    } else {
                        match entry.manifest() {
                            Ok(m) => {
                                let short = id.short_name();
                                self.add_manifest(short, &m);
                            },
                            Err(_) => {
                                proof {
                                    assert(false);
                                }
                            },
                        }
                    }
                    proof {
                        lemma_spec_resync_step_wf(pre, dview[i as int], fill_time as int);
                    }
                },
            }
            i = i + 1;
        }
        proof {
            assert(dview.take(dview.len() as int) =~= dview);
        }
        Ok(())
    }
}


// ---------------------------------------------------------------------------
// Content search
// ---------------------------------------------------------------------------

/// The identifier of one version of an aggregate record.
pub open spec fn pm_version_id(pm: PackageManifestView, v: crate::version::VersionView) -> PackageIdView {
    PackageIdView { repository: pm.repository, category: pm.category, name: pm.name, version: v }
}

/// What one version's cache entry answers to the query, each distinct path
/// once.
pub open spec fn cached_matches(
    cache: Seq<CacheEntryView>,
    id: PackageIdView,
    q: Seq<char>,
    exact: bool,
) -> Seq<Seq<char>> {
    crate::search::dedup(
        contains_spec(CacheEntryView { id, state: cache_state_of(cache, id) }, q, exact),
    )
}

/// The concatenation of every version's distinct matches, in version order.
pub open spec fn pm_matches(
    cache: Seq<CacheEntryView>,
    pm: PackageManifestView,
    versions: Seq<(crate::version::VersionView, crate::manifest::VersionDataView)>,
    q: Seq<char>,
    exact: bool,
) -> Seq<Seq<char>>
    decreases versions.len(),
{
    if versions.len() == 0 {
        Seq::empty()
    } else {
        pm_matches(cache, pm, versions.drop_last(), q, exact) + cached_matches(
            cache,
            pm_version_id(pm, versions.last().0),
            q,
            exact,
        )
    }
}

/// A path occurs at most once per version.
pub proof fn lemma_pm_matches_occ_bound(
    cache: Seq<CacheEntryView>,
    pm: PackageManifestView,
    versions: Seq<(crate::version::VersionView, crate::manifest::VersionDataView)>,
    q: Seq<char>,
    exact: bool,
    p: Seq<char>,
)
    ensures
        crate::search::occurrences(pm_matches(cache, pm, versions, q, exact), p) <= versions.len(),
    decreases versions.len(),
{
    if versions.len() > 0 {
        lemma_pm_matches_occ_bound(cache, pm, versions.drop_last(), q, exact, p);
        let seg = cached_matches(cache, pm_version_id(pm, versions.last().0), q, exact);
        crate::search::lemma_occurrences_concat(
            pm_matches(cache, pm, versions.drop_last(), q, exact),
            seg,
            p,
        );
        crate::search::lemma_dedup_spec(
            contains_spec(
                CacheEntryView {
                    id: pm_version_id(pm, versions.last().0),
                    state: cache_state_of(cache, pm_version_id(pm, versions.last().0)),
                },
                q,
                exact,
            ),
        );
    }
}

/// One aggregate record's search results: each distinct matched path once,
/// flagged with whether every version contains it.
pub open spec fn spec_browse_pm(
    cache: Seq<CacheEntryView>,
    pm: PackageManifestView,
    q: Seq<char>,
    exact: bool,
) -> Seq<crate::search::ContentSearchResultView> {
    crate::search::tally(pm_matches(cache, pm, pm.versions, q, exact)).map_values(
        |pc: (Seq<char>, nat)|
            crate::search::ContentSearchResultView {
                path: pc.0,
                name: pm.full_name(),
                all_versions: pc.1 == pm.versions.len(),
            },
    )
}

/// All packages' search results, in index order.
pub open spec fn spec_browse_over(
    cache: Seq<CacheEntryView>,
    mans: Seq<PackageManifestView>,
    q: Seq<char>,
    exact: bool,
) -> Seq<crate::search::ContentSearchResultView>
    decreases mans.len(),
{
    if mans.len() == 0 {
        Seq::empty()
    } else {
        spec_browse_over(cache, mans.drop_last(), q, exact) + spec_browse_pm(
            cache,
            mans.last(),
            q,
            exact,
        )
    }
}

pub open spec fn spec_browse(mv: ManagerView, q: Seq<char>, exact: bool) -> Seq<
    crate::search::ContentSearchResultView,
> {
    spec_browse_over(mv.cache, mv.manifests, q, exact)
}

impl NPFManager {
    /// The packages that contain a file answering the query: for every
    /// package, every version's cached listing is consulted; each distinct
    /// matched path is reported once, with `all_versions` telling whether
    /// every version of that package contains it.
    pub fn browse_packages_for_file(&self, content: &str, exact_match: bool) -> (r: Vec<
        crate::search::ContentSearchResult,
    >)
        ensures
            r@.map_values(|x: crate::search::ContentSearchResult| x@) == spec_browse(
                self@,
                content@,
                exact_match,
            ),
    {
        let ghost mans = self@.manifests;
        let ghost cachev = self@.cache;
        let mut results: Vec<crate::search::ContentSearchResult> = Vec::new();
        let mut a: usize = 0;
        proof {
            assert(mans.take(0) =~= Seq::<PackageManifestView>::empty());
            assert(results@.map_values(|x: crate::search::ContentSearchResult| x@)
                =~= spec_browse_over(cachev, mans.take(0), content@, exact_match));
        }
        while a < self.manifests.len()
            invariant
                0 <= a <= self.manifests@.len(),
                mans == self@.manifests,
                cachev == self@.cache,
                mans == self.manifests@.map_values(|p: PackageManifest| p@),
                results@.map_values(|x: crate::search::ContentSearchResult| x@)
                    == spec_browse_over(cachev, mans.take(a as int), content@, exact_match),
            decreases self.manifests@.len() - a,
        {
            let ghost pmv = mans[a as int];
            proof {
                assert(mans[a as int] == self.manifests@[a as int]@);
                assert(mans.take(a as int + 1).drop_last() =~= mans.take(a as int));
                assert(mans.take(a as int + 1).last() == mans[a as int]);
            }
            // Tally, per distinct matched path, how many versions contain it.
            let mut counters: Vec<(String, usize)> = Vec::new();
            let mut b: usize = 0;
            proof {
                assert(pmv.versions.take(0) =~= Seq::<
                    (crate::version::VersionView, crate::manifest::VersionDataView),
                >::empty());
                assert(crate::search::counters_view(counters@) =~= crate::search::tally(
                    pm_matches(cachev, pmv, pmv.versions.take(0), content@, exact_match),
                ));
            }
            while b < self.manifests[a].versions.len()
                invariant
                    0 <= a < self.manifests@.len(),
                    0 <= b <= pmv.versions.len(),
                    mans == self@.manifests,
                    cachev == self@.cache,
                    mans == self.manifests@.map_values(|p: PackageManifest| p@),
                    pmv == mans[a as int],
                    pmv.versions.len() == self.manifests@[a as int].versions@.len(),
                    crate::search::counters_view(counters@) == crate::search::tally(
                        pm_matches(cachev, pmv, pmv.versions.take(b as int), content@, exact_match),
                    ),
                decreases pmv.versions.len() - b,
            {
                let ghost prefix = pm_matches(
                    cachev,
                    pmv,
                    pmv.versions.take(b as int),
                    content@,
                    exact_match,
                );
                let pm_ref = &self.manifests[a];
                let id = PackageID {
                    repository: pm_ref.repository.clone(),
                    category: pm_ref.category.clone(),
                    name: pm_ref.name.clone(),
                    version: pm_ref.versions[b].0.clone(),
                };
                proof {
                    assert(pmv.versions[b as int] == (
                        self.manifests@[a as int].versions@[b as int].0@,
                        self.manifests@[a as int].versions@[b as int].1@,
                    ));
                    assert(id@ == pm_version_id(pmv, pmv.versions[b as int].0));
                }
                let entry = self.cache_entry_of(&id);
                let ms = entry.contains(content, exact_match);
                let dd = crate::search::dedup_strings(&ms);
                let ghost ddv = dd@.map_values(|x: String| x@);
                proof {
                    assert(ddv == cached_matches(cachev, id@, content@, exact_match));
                    assert(pmv.versions.take(b as int + 1).drop_last() =~= pmv.versions.take(
                        b as int,
                    ));
                    assert(pmv.versions.take(b as int + 1).last() == pmv.versions[b as int]);
                    assert(pm_matches(
                        cachev,
                        pmv,
                        pmv.versions.take(b as int + 1),
                        content@,
                        exact_match,
                    ) == prefix + ddv);
                    assert(ddv.take(0) =~= Seq::<Seq<char>>::empty());
                    assert(prefix + ddv.take(0) =~= prefix);
                    assert forall|p2: Seq<char>|
                        crate::search::occurrences(prefix, p2) <= b by {
                        lemma_pm_matches_occ_bound(
                            cachev,
                            pmv,
                            pmv.versions.take(b as int),
                            content@,
                            exact_match,
                            p2,
                        );
                    }
                    crate::search::lemma_dedup_spec(
                        contains_spec(
                            CacheEntryView { id: id@, state: cache_state_of(cachev, id@) },
                            content@,
                            exact_match,
                        ),
                    );
                }
                let mut c: usize = 0;
                while c < dd.len()
                    invariant
                        0 <= c <= dd@.len(),
                        ddv == dd@.map_values(|x: String| x@),
                        crate::search::counters_view(counters@) == crate::search::tally(
                            prefix + ddv.take(c as int),
                        ),
                        forall|p2: Seq<char>|
                            crate::search::occurrences(prefix, p2) <= b,
                        forall|p2: Seq<char>|
                            #[trigger] crate::search::occurrences(ddv, p2) <= 1,
                        b < pmv.versions.len(),
                        pmv.versions.len() <= usize::MAX,
                    decreases dd@.len() - c,
                {
                    let ghost seen = prefix + ddv.take(c as int);
                    proof {
                        assert(ddv[c as int] == dd@[c as int]@);
                        assert(prefix + ddv.take(c as int + 1) =~= seen.push(ddv[c as int]));
                        assert((seen.push(ddv[c as int])).drop_last() =~= seen);
                        assert((seen.push(ddv[c as int])).last() == ddv[c as int]);
                    }
                    match crate::search::find_counter_exec(&counters, dd[c].as_str()) {
                        Some(i) => {
                            proof {
                                crate::search::lemma_find_counter_spec(
                                    crate::search::counters_view(counters@),
                                    ddv[c as int],
                                );
                                crate::search::lemma_tally_spec(seen);
                                crate::search::lemma_occurrences_concat(
                                    prefix,
                                    ddv.take(c as int),
                                    ddv[c as int],
                                );
                                assert(crate::search::occurrences(ddv.take(c as int), ddv[c as int])
                                    == 0) by {
                                    assert(ddv.take(c as int + 1).drop_last() =~= ddv.take(
                                        c as int,
                                    ));
                                    assert(ddv.take(c as int + 1).last() == ddv[c as int]);
                                    lemma_occ_prefix(ddv, c as int + 1, ddv[c as int]);
                                    assert(crate::search::occurrences(ddv, ddv[c as int]) <= 1);
                                }
                                let cv = crate::search::counters_view(counters@);
                                assert(cv[i as int].0 == ddv[c as int]);
                                assert(cv[i as int].1 == crate::search::occurrences(
                                    seen,
                                    ddv[c as int],
                                ));
                                assert(cv[i as int].1 <= b);
                                assert(cv[i as int].1 == counters@[i as int].1 as nat);
                                assert(counters@[i as int].1 < usize::MAX);
                            }
                            let ghost cv0 = crate::search::counters_view(counters@);
                            let path = counters[i].0.clone();
                            let cnt = counters[i].1;
                            counters.set(i, (path, cnt + 1));
                            proof {
                                assert(crate::search::counters_view(counters@) =~= cv0.update(
                                    i as int,
                                    (ddv[c as int], (cv0[i as int].1 + 1) as nat),
                                ));
                                assert(cv0[i as int].0 == ddv[c as int]);
                            }
                        },
                        None => {
                            let ghost cv0 = crate::search::counters_view(counters@);
                            let path = dd[c].clone();
                            counters.push((path, 1));
                            proof {
                                assert(crate::search::counters_view(counters@) =~= cv0.push(
                                    (ddv[c as int], 1nat),
                                ));
                            }
                        },
                    }
                    c = c + 1;
                }
                proof {
                    assert(ddv.take(ddv.len() as int) =~= ddv);
                }
                b = b + 1;
            }
            proof {
                assert(pmv.versions.take(pmv.versions.len() as int) =~= pmv.versions);
            }
            // Emit one result per distinct path.
            let versions_count = self.manifests[a].versions.len();
            let full = self.manifests[a].full_name();
            let ghost pm_res = spec_browse_pm(cachev, pmv, content@, exact_match);
            let ghost before = results@.map_values(|x: crate::search::ContentSearchResult| x@);
            let mut k: usize = 0;
            proof {
                assert(pm_res.take(0) =~= Seq::<crate::search::ContentSearchResultView>::empty());
                assert(before + pm_res.take(0) =~= before);
            }
            while k < counters.len()
                invariant
                    0 <= k <= counters@.len(),
                    pm_res == spec_browse_pm(cachev, pmv, content@, exact_match),
                    crate::search::counters_view(counters@) == crate::search::tally(
                        pm_matches(cachev, pmv, pmv.versions, content@, exact_match),
                    ),
                    pm_res.len() == counters@.len(),
                    versions_count == pmv.versions.len(),
                    full@ == pmv.full_name(),
                    results@.map_values(|x: crate::search::ContentSearchResult| x@) == before
                        + pm_res.take(k as int),
                decreases counters@.len() - k,
            {
                let ghost pre = results@.map_values(|x: crate::search::ContentSearchResult| x@);
                let path = counters[k].0.clone();
                let all_versions = counters[k].1 == versions_count;
                results.push(
                    crate::search::ContentSearchResult { path, name: full.clone(), all_versions },
                );
                proof {
                    let cv = crate::search::counters_view(counters@);
                    assert(cv[k as int] == (counters@[k as int].0@, counters@[k as int].1 as nat));
                    assert(pm_res[k as int] == crate::search::ContentSearchResultView {
                        path: cv[k as int].0,
                        name: pmv.full_name(),
                        all_versions: cv[k as int].1 == pmv.versions.len(),
                    });
                    assert(results@.map_values(|x: crate::search::ContentSearchResult| x@)
                        =~= pre.push(pm_res[k as int]));
                    assert(pm_res.take(k as int + 1) =~= pm_res.take(k as int).push(
                        pm_res[k as int],
                    ));
                }
                k = k + 1;
            }
            proof {
                assert(pm_res.take(pm_res.len() as int) =~= pm_res);
                assert(results@.map_values(|x: crate::search::ContentSearchResult| x@)
                    =~= spec_browse_over(cachev, mans.take(a as int + 1), content@, exact_match));
            }
            a = a + 1;
        }
        proof {
            assert(mans.take(mans.len() as int) =~= mans);
        }
        results
    }
}

/// Occurrences in a prefix never exceed those in the whole.
proof fn lemma_occ_prefix(s: Seq<Seq<char>>, i: int, p: Seq<char>)
    requires
        0 <= i <= s.len(),
    ensures
        crate::search::occurrences(s.take(i), p) <= crate::search::occurrences(s, p),
    decreases s.len() - i,
{
    if i < s.len() {
        lemma_occ_prefix(s, i + 1, p);
        assert(s.take(i + 1).drop_last() =~= s.take(i));
    } else {
        assert(s.take(i) =~= s);
    }
}


// ---------------------------------------------------------------------------
// Metadata search
// ---------------------------------------------------------------------------

/// Whether an aggregate record answers a metadata query on the chosen
/// field (`name`, `category`, `description` or `tags`); an unknown field
/// matches nothing.
pub open spec fn meta_matches(
    pm: PackageManifestView,
    q: Seq<char>,
    search_by: Seq<char>,
    exact: bool,
) -> bool {
    if search_by == "name"@ {
        if exact {
            pm.name == q
        } else {
            crate::strutil::contains_seq(pm.name, q)
        }
    } else if search_by == "category"@ {
        if exact {
            pm.category == q
        } else {
            crate::strutil::contains_seq(pm.category, q)
        }
    } else if search_by == "description"@ {
        if exact {
            pm.metadata.description == q
        } else {
            crate::strutil::contains_seq(pm.metadata.description, q)
        }
    } else if search_by == "tags"@ {
        exists|i: int|
            0 <= i < pm.metadata.tags.len() && (if exact {
                #[trigger] pm.metadata.tags[i] == q
            } else {
                crate::strutil::contains_seq(#[trigger] pm.metadata.tags[i], q)
            })
    } else {
        false
    }
}

/// The records answering a metadata query, in index order.
pub open spec fn spec_search_metadata(
    mans: Seq<PackageManifestView>,
    q: Seq<char>,
    search_by: Seq<char>,
    exact: bool,
) -> Seq<PackageManifestView>
    decreases mans.len(),
{
    if mans.len() == 0 {
        mans
    } else {
        let rest = spec_search_metadata(mans.drop_last(), q, search_by, exact);
        if meta_matches(mans.last(), q, search_by, exact) {
            rest.push(mans.last())
        } else {
            rest
        }
    }
}

impl NPFManager {
    /// The records whose chosen field answers the query: equality under
    /// `exact_match`, substring containment otherwise.
    pub fn do_search_metadata(&self, q: &str, search_by: &str, exact_match: bool) -> (r: Vec<
        PackageManifest,
    >)
        ensures
            r@.map_values(|p: PackageManifest| p@) == spec_search_metadata(
                self@.manifests,
                q@,
                search_by@,
                exact_match,
            ),
    {
        let ghost mans = self@.manifests;
        let mut r: Vec<PackageManifest> = Vec::new();
        let mut i: usize = 0;
        proof {
            assert(mans.take(0) =~= Seq::<PackageManifestView>::empty());
            assert(r@.map_values(|p: PackageManifest| p@) =~= spec_search_metadata(
                mans.take(0),
                q@,
                search_by@,
                exact_match,
            ));
        }
        while i < self.manifests.len()
            invariant
                0 <= i <= self.manifests@.len(),
                mans == self@.manifests,
                mans == self.manifests@.map_values(|p: PackageManifest| p@),
                r@.map_values(|p: PackageManifest| p@) == spec_search_metadata(
                    mans.take(i as int),
                    q@,
                    search_by@,
                    exact_match,
                ),
            decreases self.manifests@.len() - i,
        {
            let ghost pre = r@.map_values(|p: PackageManifest| p@);
            proof {
                assert(mans[i as int] == self.manifests@[i as int]@);
                assert(mans.take(i as int + 1).drop_last() =~= mans.take(i as int));
                assert(mans.take(i as int + 1).last() == mans[i as int]);
            }
            let pm = &self.manifests[i];
            let hit: bool;
            if str_eq(search_by, "name") {
                hit = if exact_match {
                    str_eq(pm.name.as_str(), q)
                } else {
                    crate::strutil::str_contains(pm.name.as_str(), q)
                };
            } else if str_eq(search_by, "category") {
                hit = if exact_match {
                    str_eq(pm.category.as_str(), q)
                } else {
                    crate::strutil::str_contains(pm.category.as_str(), q)
                };
            } else if str_eq(search_by, "description") {
                hit = if exact_match {
                    str_eq(pm.metadata.description.as_str(), q)
                } else {
                    crate::strutil::str_contains(pm.metadata.description.as_str(), q)
                };
            } else if str_eq(search_by, "tags") {
                let ghost tags = mans[i as int].metadata.tags;
                let mut any = false;
                let mut t: usize = 0;
                while t < pm.metadata.tags.len()
                    invariant
                        0 <= t <= pm.metadata.tags@.len(),
                        mans == self@.manifests,
                        mans == self.manifests@.map_values(|p: PackageManifest| p@),
                        0 <= i < self.manifests@.len(),
                        pm == &self.manifests[i as int],
                        tags == mans[i as int].metadata.tags,
                        tags == pm.metadata.tags@.map_values(|x: String| x@),
                        any ==> exists|k: int|
                            0 <= k < tags.len() && (if exact_match {
                                #[trigger] tags[k] == q@
                            } else {
                                crate::strutil::contains_seq(#[trigger] tags[k], q@)
                            }),
                        !any ==> forall|k: int|
                            0 <= k < t ==> !(if exact_match {
                                #[trigger] tags[k] == q@
                            } else {
                                crate::strutil::contains_seq(#[trigger] tags[k], q@)
                            }),
                    decreases pm.metadata.tags@.len() - t + (if any {
                        0int
                    } else {
                        1int
                    }),
                {
                    proof {
                        assert(tags[t as int] == pm.metadata.tags@[t as int]@);
                    }
                    let tag_hit = if exact_match {
                        str_eq(pm.metadata.tags[t].as_str(), q)
                    } else {
                        crate::strutil::str_contains(pm.metadata.tags[t].as_str(), q)
                    };
                    if tag_hit {
                        any = true;
                    }
                    t = t + 1;
                }
                hit = any;
                proof {
                    assert(hit == meta_matches(mans[i as int], q@, search_by@, exact_match));
                }
            } else {
                hit = false;
                proof {
                    assert(!meta_matches(mans[i as int], q@, search_by@, exact_match));
                }
            }
            if hit {
                let pm2 = self.manifests[i].clone();
                r.push(pm2);
                proof {
                    assert(r@.map_values(|p: PackageManifest| p@) =~= pre.push(mans[i as int]));
                }
            }
            i = i + 1;
        }
        proof {
            assert(mans.take(mans.len() as int) =~= mans);
        }
        r
    }
}

} // verus!
