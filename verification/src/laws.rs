//! The engine's cross-operation guarantees, stated and proved over the
//! specification functions that the executable methods are verified
//! against.

use vstd::prelude::*;

use crate::cache::{
    fill_ok, filled_state, is_dirty_spec, ArchiveDataView, ArchiveOutcomeView, CacheEntryView,
    CacheStateView,
};
use crate::codec::{decode_path_spec, PackageIdView, ShortNameView};
use crate::history::{history_add, history_wf, HistoryEntryView};
use crate::manifest::{
    find_version_index, lemma_find_version_index_spec, pm_remove_version, pm_upsert, ManifestView,
    PackageManifestView,
};
use crate::manager::{
    cache_state_of, cache_store, find_cache_index, find_pm_index, has_nest_ext,
    lemma_cache_store_wf, lemma_find_cache_index_spec, lemma_find_pm_index_spec,
    lemma_spec_add_manifest_wf, lemma_spec_add_wf, lemma_spec_flush_wf, lemma_spec_resync_step_wf,
    manifest_of_spec, spec_add, spec_add_manifest, spec_flush, spec_remove, spec_resync,
    spec_resync_from, spec_resync_step, cleared, DiskArchiveView, ManagerView, OpStatus,
};

verus! {

// ---------------------------------------------------------------------------
// Dirty detection
// ---------------------------------------------------------------------------

/// A cache entry straight after a successful fill is never stale against an
/// archive whose modification time does not exceed the fill time; touching
/// the archive afterwards (a strictly newer modification time) makes the
/// entry stale, even with unchanged content.
pub proof fn lemma_dirty_detection(
    data: ArchiveDataView,
    fill_time: int,
    mtime: int,
    id: PackageIdView,
)
    requires
        fill_ok(data),
    ensures
        mtime <= fill_time ==> !is_dirty_spec(
            CacheEntryView { id, state: Some(filled_state(data, fill_time)) },
            Some(mtime),
        ),
        mtime > fill_time ==> is_dirty_spec(
            CacheEntryView { id, state: Some(filled_state(data, fill_time)) },
            Some(mtime),
        ),
{
}

// ---------------------------------------------------------------------------
// Finding after an update
// ---------------------------------------------------------------------------

/// A position holding the short name, with none before it, is where the
/// search lands.
pub proof fn lemma_find_pm_at(mans: Seq<PackageManifestView>, short: ShortNameView, i: int)
    requires
        0 <= i < mans.len(),
        mans[i].short_name() == short,
        forall|j: int| 0 <= j < i ==> (#[trigger] mans[j]).short_name() != short,
    ensures
        find_pm_index(mans, short) == Some(i),
{
    lemma_find_pm_index_spec(mans, short);
    match find_pm_index(mans, short) {
        None => {
            assert(mans[i].short_name() != short);
        },
        Some(k) => {
            if k < i {
                assert(mans[k].short_name() != short);
            }
            if k > i {
                assert(mans[i].short_name() != short);
            }
        },
    }
}

// ---------------------------------------------------------------------------
// Consistency of add and remove
// ---------------------------------------------------------------------------

/// Adding an archive and then removing the same location removes that
/// version again; when the package had no other version, its record leaves
/// the index entirely, and `manifest_of` answers nothing.
pub proof fn lemma_add_then_remove(
    mv: ManagerView,
    path: Seq<char>,
    outcome: ArchiveOutcomeView,
    t: int,
)
    requires
        mv.wf(),
        spec_add(mv, path, outcome, t).1 is Done,
    ensures
        ({
            let id = decode_path_spec(path, mv.repository).unwrap();
            let mv1 = spec_add(mv, path, outcome, t).0;
            let mv2 = spec_remove(mv1, path).0;
            &&& (match manifest_of_spec(mv2, id.short_name()) {
                Some(pm) => find_version_index(pm.versions, id.version) is None,
                None => true,
            })
            &&& (manifest_of_spec(mv, id.short_name()) is None ==> manifest_of_spec(
                mv2,
                id.short_name(),
            ) is None)
        }),
{
    let id = decode_path_spec(path, mv.repository).unwrap();
    let short = id.short_name();
    let data = outcome->Parsed_0;
    let m = data.manifest;
    let mv1 = spec_add(mv, path, outcome, t).0;
    let mv2 = spec_remove(mv1, path).0;
    lemma_spec_add_wf(mv, path, outcome, t);
    lemma_spec_add_manifest_wf(mv, short, m);
    lemma_find_pm_index_spec(mv.manifests, short);
    assert(m.name == id.name && m.category == id.category && m.version == id.version);

    // Where the record of this short name stands after the add, and that it
    // holds the added version.
    let mans1 = mv1.manifests;
    let pm0 = match find_pm_index(mv.manifests, short) {
        Some(i) => mv.manifests[i],
        None => crate::manifest::pm_fresh(short, mv.repository, m.metadata),
    };
    let pm1 = pm_upsert(pm0, m);
    crate::manifest::lemma_pm_upsert_wf(pm0, m);
    let i1: int = match find_pm_index(mv.manifests, short) {
        Some(i) => i,
        None => mv.manifests.len() as int,
    };
    assert(mans1[i1] == pm1);
    assert(pm1.short_name() == short);
    assert forall|j: int| 0 <= j < i1 implies (#[trigger] mans1[j]).short_name() != short by {
        assert(mans1[j] == mv.manifests[j]);
        lemma_find_pm_index_spec(mv.manifests, short);
    }
    lemma_find_pm_at(mans1, short, i1);
    assert(find_pm_index(mans1, short) == Some(i1));

    // The added version stands in the record exactly once.
    lemma_find_version_index_spec(pm1.versions, id.version);
    assert(find_version_index(pm1.versions, id.version) is Some) by {
        lemma_find_version_index_spec(pm0.versions, m.version);
        match find_version_index(pm0.versions, m.version) {
            Some(k) => {
                assert(pm1.versions[k].0 == m.version);
                lemma_find_version_index_spec(pm1.versions, id.version);
                if find_version_index(pm1.versions, id.version) is None {
                    assert(pm1.versions[k].0 != id.version);
                }
            },
            None => {
                assert(pm1.versions.last().0 == m.version);
                lemma_find_version_index_spec(pm1.versions, id.version);
                if find_version_index(pm1.versions, id.version) is None {
                    assert(pm1.versions[pm1.versions.len() - 1].0 != id.version);
                }
            },
        }
    }
    let vi = find_version_index(pm1.versions, id.version)->0;

    // The remove decodes the same identifier and finds the same record.
    assert(mv1.repository == mv.repository);
    let pm2 = pm_remove_version(pm1, id.version);
    crate::manifest::lemma_pm_remove_wf(pm1, id.version);
    assert(pm2.versions == pm1.versions.remove(vi));

    // The removed version is gone: it occurred only once.
    assert(find_version_index(pm2.versions, id.version) is None) by {
        lemma_find_version_index_spec(pm2.versions, id.version);
        match find_version_index(pm2.versions, id.version) {
            None => {},
            Some(k) => {
                let k0: int = if k < vi {
                    k
                } else {
                    k + 1
                };
                assert(pm2.versions[k] == pm1.versions[k0]);
                assert(pm1.versions[k0].0 == id.version);
                assert(pm1.versions[vi].0 == id.version);
                assert(k0 != vi);
                assert(pm1.wf());
            },
        }
    }

    if pm2.versions.len() == 0 {
        // The record leaves the index.
        let mans2 = mans1.remove(i1);
        assert(mv2.manifests == mans2);
        assert(manifest_of_spec(mv2, short) is None) by {
            lemma_find_pm_index_spec(mans2, short);
            match find_pm_index(mans2, short) {
                None => {},
                Some(k) => {
                    let k0: int = if k < i1 {
                        k
                    } else {
                        k + 1
                    };
                    assert(mans2[k] == mans1[k0]);
                    assert(mans1[k0].short_name() == short);
                    assert(mans1[i1].short_name() == short);
                    assert(k0 != i1);
                    assert(mv1.wf());
                },
            }
        }
    } else {
        let mans2 = mans1.update(i1, pm2);
        assert(mv2.manifests == mans2);
        assert forall|j: int| 0 <= j < i1 implies (#[trigger] mans2[j]).short_name()
            != short by {
            assert(mans2[j] == mans1[j]);
            lemma_find_pm_index_spec(mans1, short);
            assert(mv1.wf());
            assert(mans1[j].short_name() != mans1[i1].short_name());
        }
        lemma_find_pm_at(mans2, short, i1);
        assert(manifest_of_spec(mv2, short) == Some(pm2));
    }

    // When the package was new, the added version was its only one.
    if manifest_of_spec(mv, short) is None {
        assert(pm0.versions.len() == 0);
        assert(pm1.versions.len() == 1);
        assert(pm2.versions.len() == 0);
    }
}

// ---------------------------------------------------------------------------
// The history bound
// ---------------------------------------------------------------------------

/// Recording a package that has no entry yet grows the history by one, up
/// to the bound; past the bound the oldest entry is dropped and the length
/// stays at the bound.
pub proof fn lemma_history_growth(entries: Seq<HistoryEntryView>, pm: PackageManifestView)
    requires
        history_wf(entries),
        pm.versions.len() > 0,
        forall|i: int|
            0 <= i < entries.len() ==> (#[trigger] entries[i]).manifest.full_name()
                != pm.full_name(),
    ensures
        history_wf(history_add(entries, pm)),
        history_add(entries, pm).len() == (if entries.len() + 1 > crate::history::HISTORY_SIZE as int {
            crate::history::HISTORY_SIZE as int
        } else {
            entries.len() as int + 1
        }),
{
    crate::history::lemma_history_add_wf(entries, pm);
    lemma_retain_all(entries, pm.full_name());
}

/// Retaining drops nothing when no entry has the name.
proof fn lemma_retain_all(entries: Seq<HistoryEntryView>, full: crate::codec::FullNameView)
    requires
        forall|i: int|
            0 <= i < entries.len() ==> (#[trigger] entries[i]).manifest.full_name() != full,
    ensures
        crate::history::retain_other(entries, full) == entries,
    decreases entries.len(),
{
    if entries.len() > 0 {
        assert(forall|i: int|
            0 <= i < entries.drop_last().len() ==> (#[trigger] entries.drop_last()[i])
                == entries[i]);
        lemma_retain_all(entries.drop_last(), full);
        assert(crate::history::retain_other(entries, full) =~= entries);
    } else {
        assert(crate::history::retain_other(entries, full) =~= entries);
    }
}


// ---------------------------------------------------------------------------
// The all-versions flag
// ---------------------------------------------------------------------------

/// A path occurs in the combined matches exactly as often as there are
/// versions whose listing answers with it; it reaches the version count
/// exactly when every version contains it.
proof fn lemma_pm_matches_all(
    cache: Seq<CacheEntryView>,
    pm: PackageManifestView,
    versions: Seq<(crate::version::VersionView, crate::manifest::VersionDataView)>,
    q: Seq<char>,
    exact: bool,
    p: Seq<char>,
)
    ensures
        crate::search::occurrences(crate::manager::pm_matches(cache, pm, versions, q, exact), p)
            == versions.len() <==> (forall|j: int|
            0 <= j < versions.len() ==> crate::manager::cached_matches(
                cache,
                crate::manager::pm_version_id(pm, (#[trigger] versions[j]).0),
                q,
                exact,
            ).contains(p)),
    decreases versions.len(),
{
    if versions.len() > 0 {
        lemma_pm_matches_all(cache, pm, versions.drop_last(), q, exact, p);
        let prefix = crate::manager::pm_matches(cache, pm, versions.drop_last(), q, exact);
        let seg = crate::manager::cached_matches(
            cache,
            crate::manager::pm_version_id(pm, versions.last().0),
            q,
            exact,
        );
        crate::search::lemma_occurrences_concat(prefix, seg, p);
        crate::search::lemma_dedup_spec(
            crate::cache::contains_spec(
                CacheEntryView {
                    id: crate::manager::pm_version_id(pm, versions.last().0),
                    state: cache_state_of(
                        cache,
                        crate::manager::pm_version_id(pm, versions.last().0),
                    ),
                },
                q,
                exact,
            ),
        );
        crate::search::lemma_occurrences_positive(seg, p);
        crate::manager::lemma_pm_matches_occ_bound(cache, pm, versions.drop_last(), q, exact, p);
        assert(forall|j: int|
            0 <= j < versions.drop_last().len() ==> versions.drop_last()[j] == versions[j]);
        let total = crate::search::occurrences(
            crate::manager::pm_matches(cache, pm, versions, q, exact),
            p,
        );
        if total == versions.len() {
            assert(crate::search::occurrences(prefix, p) == versions.len() - 1 && seg.contains(p));
            assert forall|j: int| 0 <= j < versions.len() implies crate::manager::cached_matches(
                cache,
                crate::manager::pm_version_id(pm, (#[trigger] versions[j]).0),
                q,
                exact,
            ).contains(p) by {
                if j < versions.len() - 1 {
                    assert(versions.drop_last()[j] == versions[j]);
                }
            }
        }
        if (forall|j: int|
            0 <= j < versions.len() ==> crate::manager::cached_matches(
                cache,
                crate::manager::pm_version_id(pm, (#[trigger] versions[j]).0),
                q,
                exact,
            ).contains(p)) {
            assert forall|j: int|
                0 <= j < versions.drop_last().len() implies crate::manager::cached_matches(
                cache,
                crate::manager::pm_version_id(pm, (#[trigger] versions.drop_last()[j]).0),
                q,
                exact,
            ).contains(p) by {
                assert(versions.drop_last()[j] == versions[j]);
            }
            assert(crate::search::occurrences(prefix, p) == versions.len() - 1);
            assert(seg.contains(p));
            assert(crate::search::occurrences(seg, p) == 1);
        }
    }
}

/// In a package's search results the flag answers exactly: every version's
/// listing contains the path.
pub proof fn lemma_all_versions_flag(
    cache: Seq<CacheEntryView>,
    pm: PackageManifestView,
    q: Seq<char>,
    exact: bool,
    k: int,
)
    requires
        0 <= k < crate::manager::spec_browse_pm(cache, pm, q, exact).len(),
    ensures
        ({
            let r = crate::manager::spec_browse_pm(cache, pm, q, exact)[k];
            r.all_versions <==> (forall|j: int|
                0 <= j < pm.versions.len() ==> crate::manager::cached_matches(
                    cache,
                    crate::manager::pm_version_id(pm, (#[trigger] pm.versions[j]).0),
                    q,
                    exact,
                ).contains(r.path))
        }),
{
    let matches = crate::manager::pm_matches(cache, pm, pm.versions, q, exact);
    crate::search::lemma_tally_spec(matches);
    let r = crate::manager::spec_browse_pm(cache, pm, q, exact)[k];
    assert(r.path == crate::search::tally(matches)[k].0);
    assert(r.all_versions == (crate::search::tally(matches)[k].1 == pm.versions.len()));
    assert(crate::search::tally(matches)[k].1 == crate::search::occurrences(matches, r.path));
    lemma_pm_matches_all(cache, pm, pm.versions, q, exact, r.path);
}


// ---------------------------------------------------------------------------
// Cache locality of resynchronization steps
// ---------------------------------------------------------------------------

/// Identifiers decoded from the scanned locations are pairwise distinct:
/// each package version has one archive file.
pub open spec fn distinct_ids(disk: Seq<DiskArchiveView>, repo: Seq<char>) -> bool {
    forall|j: int, l: int|
        0 <= j < l < disk.len() ==> (match (
            decode_path_spec((#[trigger] disk[j]).path, repo),
            decode_path_spec((#[trigger] disk[l]).path, repo),
        ) {
            (Some(a), Some(b)) => a != b,
            _ => true,
        })
}

/// The shape of every location a directory scan yields: three
/// `/`-segments, and the archive extension on the file name.
pub open spec fn scan_shaped(path: Seq<char>) -> bool {
    &&& crate::strutil::split_on(path, '/').len() == 3
    &&& crate::strutil::split_on(crate::strutil::split_on(path, '/').last(), '.').len() >= 2
    &&& crate::strutil::split_on(crate::strutil::split_on(path, '/').last(), '.').last()
        == crate::codec::nest_ext_chars()
}

/// Distinct scan-shaped locations decode to distinct identifiers: each
/// identifier has exactly one canonical location of that shape.
pub proof fn lemma_scan_distinct_ids(disk: Seq<DiskArchiveView>, repo: Seq<char>)
    requires
        forall|j: int| 0 <= j < disk.len() ==> scan_shaped((#[trigger] disk[j]).path),
        forall|j: int, l: int|
            0 <= j < l < disk.len() ==> (#[trigger] disk[j]).path != (#[trigger] disk[l]).path,
    ensures
        distinct_ids(disk, repo),
{
    assert forall|j: int, l: int| 0 <= j < l < disk.len() implies (match (
        decode_path_spec((#[trigger] disk[j]).path, repo),
        decode_path_spec((#[trigger] disk[l]).path, repo),
    ) {
        (Some(a), Some(b)) => a != b,
        _ => true,
    }) by {
        match (
            decode_path_spec(disk[j].path, repo),
            decode_path_spec(disk[l].path, repo),
        ) {
            (Some(a), Some(b)) => {
                if a == b {
                    crate::codec::lemma_decode_canonical(disk[j].path, repo);
                    crate::codec::lemma_decode_canonical(disk[l].path, repo);
                    assert(disk[j].path == crate::codec::encode_path_spec(a));
                    assert(disk[l].path == crate::codec::encode_path_spec(b));
                }
            },
            _ => {},
        }
    }
}

/// One step touches no cache entry but its own archive's.
proof fn lemma_step_cache_other(mv: ManagerView, d: DiskArchiveView, t: int, q: PackageIdView)
    requires
        mv.wf(),
        match decode_path_spec(d.path, mv.repository) {
            Some(id) => id != q,
            None => true,
        },
    ensures
        cache_state_of(spec_resync_step(mv, d, t).cache, q) == cache_state_of(mv.cache, q),
{
    match decode_path_spec(d.path, mv.repository) {
        None => {},
        Some(id) => {
            let st = cache_state_of(mv.cache, id);
            if st is None || is_dirty_spec(CacheEntryView { id, state: st }, Some(d.mtime)) {
                if has_nest_ext(d.path) {
                    match d.outcome {
                        ArchiveOutcomeView::Unreadable(_) => {
                            lemma_cache_store_wf(mv.cache, id, None);
                        },
                        ArchiveOutcomeView::Parsed(data) => {
                            if !fill_ok(data) || data.manifest.name != id.name
                                || data.manifest.category != id.category || data.manifest.version
                                != id.version {
                                lemma_cache_store_wf(mv.cache, id, None);
                            } else {
                                lemma_cache_store_wf(
                                    mv.cache,
                                    id,
                                    Some(filled_state(data, t)),
                                );
                            }
                        },
                    }
                }
            }
        },
    }
}

/// A fold over archives of other identifiers leaves an entry untouched.
proof fn lemma_fold_cache_stable(
    mv: ManagerView,
    disk: Seq<DiskArchiveView>,
    t: int,
    q: PackageIdView,
)
    requires
        mv.wf(),
        forall|j: int|
            0 <= j < disk.len() ==> (match decode_path_spec(
                (#[trigger] disk[j]).path,
                mv.repository,
            ) {
                Some(id) => id != q,
                None => true,
            }),
    ensures
        cache_state_of(spec_resync_from(mv, disk, t).cache, q) == cache_state_of(mv.cache, q),
    decreases disk.len(),
{
    if disk.len() > 0 {
        assert(forall|j: int|
            0 <= j < disk.drop_last().len() ==> disk.drop_last()[j] == disk[j]);
        lemma_fold_cache_stable(mv, disk.drop_last(), t, q);
        crate::manager::lemma_spec_resync_from_wf(mv, disk.drop_last(), t);
        lemma_step_cache_other(
            spec_resync_from(mv, disk.drop_last(), t),
            disk.last(),
            t,
            q,
        );
        assert(disk[disk.len() - 1] == disk.last());
    }
}

/// Folding splits at any point.
proof fn lemma_fold_split(mv: ManagerView, disk: Seq<DiskArchiveView>, t: int, i: int)
    requires
        0 <= i <= disk.len(),
    ensures
        spec_resync_from(mv, disk, t) == spec_resync_from(
            spec_resync_from(mv, disk.take(i), t),
            disk.skip(i),
            t,
        ),
    decreases disk.len() - i,
{
    if i == disk.len() {
        assert(disk.take(i) =~= disk);
        assert(disk.skip(i) =~= Seq::<DiskArchiveView>::empty());
    } else {
        // Peel the last archive off both folds.
        assert(disk.skip(i).len() > 0);
        assert(disk.skip(i).last() == disk.last());
        assert(disk.skip(i).drop_last() =~= disk.drop_last().skip(i));
        assert(disk.drop_last().take(i) =~= disk.take(i));
        lemma_fold_split(mv, disk.drop_last(), t, i);
        assert(spec_resync_from(mv, disk, t) == spec_resync_step(
            spec_resync_from(mv, disk.drop_last(), t),
            disk.last(),
            t,
        ));
        assert(spec_resync_from(
            spec_resync_from(mv, disk.take(i), t),
            disk.skip(i),
            t,
        ) == spec_resync_step(
            spec_resync_from(
                spec_resync_from(mv, disk.take(i), t),
                disk.skip(i).drop_last(),
                t,
            ),
            disk.skip(i).last(),
            t,
        ));
    }
}


// ---------------------------------------------------------------------------
// Idempotence of resynchronization
// ---------------------------------------------------------------------------

/// After `k` archives, the replay has built the same index and history as
/// the first pass, and its untouched cache entries still read as the first
/// pass left them.
proof fn lemma_resync_replay(
    mv: ManagerView,
    disk: Seq<DiskArchiveView>,
    t: int,
    t2: int,
    k: int,
)
    requires
        mv.wf(),
        distinct_ids(disk, mv.repository),
        0 <= k <= disk.len(),
    ensures
        ({
            let m1 = spec_resync(mv, disk, t);
            let sk = spec_resync_from(cleared(mv), disk.take(k), t);
            let uk = spec_resync_from(cleared(m1), disk.take(k), t2);
            &&& uk.manifests == sk.manifests
            &&& uk.history == sk.history
            &&& forall|q: PackageIdView|
                (forall|j: int|
                    0 <= j < k ==> decode_path_spec(
                        (#[trigger] disk[j]).path,
                        mv.repository,
                    ) != Some(q)) ==> #[trigger] cache_state_of(uk.cache, q) == cache_state_of(
                    m1.cache,
                    q,
                )
        }),
    decreases k,
{
    let m1 = spec_resync(mv, disk, t);
    crate::manager::lemma_spec_resync_from_wf(cleared(mv), disk, t);
    if k == 0 {
        assert(disk.take(0) =~= Seq::<DiskArchiveView>::empty());
        assert(spec_resync_from(cleared(mv), disk.take(0), t) == cleared(mv));
        assert(spec_resync_from(cleared(m1), disk.take(0), t2) == cleared(m1));
    } else {
        lemma_resync_replay(mv, disk, t, t2, k - 1);
        let sk1 = spec_resync_from(cleared(mv), disk.take(k - 1), t);
        let uk1 = spec_resync_from(cleared(m1), disk.take(k - 1), t2);
        let sk = spec_resync_from(cleared(mv), disk.take(k), t);
        let uk = spec_resync_from(cleared(m1), disk.take(k), t2);
        let d = disk[k - 1];
        assert(disk.take(k).drop_last() =~= disk.take(k - 1));
        assert(disk.take(k).last() == d);
        assert(sk == spec_resync_step(sk1, d, t));
        assert(uk == spec_resync_step(uk1, d, t2));
        crate::manager::lemma_spec_resync_from_wf(cleared(mv), disk.take(k - 1), t);
        crate::manager::lemma_spec_resync_from_wf(cleared(m1), disk.take(k - 1), t2);
        assert(sk1.repository == mv.repository);
        assert(uk1.repository == mv.repository);

        match decode_path_spec(d.path, mv.repository) {
            None => {
                assert(sk == sk1 && uk == uk1);
                assert forall|q: PackageIdView|
                    (forall|j: int|
                        0 <= j < k ==> decode_path_spec(
                            (#[trigger] disk[j]).path,
                            mv.repository,
                        ) != Some(q)) implies #[trigger] cache_state_of(uk.cache, q)
                    == cache_state_of(m1.cache, q) by {
                    assert(forall|j: int|
                        0 <= j < k - 1 ==> decode_path_spec(
                            (#[trigger] disk[j]).path,
                            mv.repository,
                        ) != Some(q));
                }
            },
            Some(id) => {
                // The replay's cache still holds what the first pass left
                // for this archive.
                assert(forall|j: int|
                    0 <= j < k - 1 ==> decode_path_spec(
                        (#[trigger] disk[j]).path,
                        mv.repository,
                    ) != Some(id));
                assert(cache_state_of(uk1.cache, id) == cache_state_of(m1.cache, id));
                // And the first pass never touched it after its own step.
                lemma_fold_split(cleared(mv), disk, t, k);
                assert(m1 == spec_resync_from(sk, disk.skip(k), t));
                assert(forall|j: int|
                    0 <= j < disk.skip(k).len() ==> disk.skip(k)[j] == disk[j + k]);
                crate::manager::lemma_spec_resync_from_wf(cleared(mv), disk.take(k), t);
                lemma_fold_cache_stable(sk, disk.skip(k), t, id);
                assert(cache_state_of(m1.cache, id) == cache_state_of(sk.cache, id));
                let c0 = cache_state_of(sk1.cache, id);
                let cb = cache_state_of(uk1.cache, id);

                // The step effects agree, case by case.
                if c0 is Some && !is_dirty_spec(
                    CacheEntryView { id, state: c0 },
                    Some(d.mtime),
                ) {
                    // Fast path in the first pass: the cache is unchanged,
                    // so the replay takes the fast path with the same
                    // cached manifest.
                    assert(sk == spec_add_manifest(sk1, id.short_name(), c0.unwrap().manifest));
                    assert(cache_state_of(sk.cache, id) == c0);
                    assert(cb == c0);
                    assert(uk == spec_add_manifest(uk1, id.short_name(), c0.unwrap().manifest));
                    assert(uk.manifests == sk.manifests && uk.history == sk.history);
                } else {
                    // Flush path in the first pass.
                    if !has_nest_ext(d.path) {
                        assert(sk == sk1);
                        assert(cb == c0);
                        assert(uk == uk1);
                    } else {
                        match d.outcome {
                            ArchiveOutcomeView::Unreadable(_) => {
                                lemma_cache_store_wf(sk1.cache, id, None);
                                assert(cache_state_of(sk.cache, id) is None);
                                assert(cb is None);
                                lemma_cache_store_wf(uk1.cache, id, None);
                                assert(sk.manifests == sk1.manifests
                                    && sk.history == sk1.history);
                                assert(uk.manifests == uk1.manifests
                                    && uk.history == uk1.history);
                            },
                            ArchiveOutcomeView::Parsed(data) => {
                                if !fill_ok(data) || data.manifest.name != id.name
                                    || data.manifest.category != id.category
                                    || data.manifest.version != id.version {
                                    lemma_cache_store_wf(sk1.cache, id, None);
                                    assert(cache_state_of(sk.cache, id) is None);
                                    assert(cb is None);
                                    lemma_cache_store_wf(uk1.cache, id, None);
                                    assert(sk.manifests == sk1.manifests
                                        && sk.history == sk1.history);
                                    assert(uk.manifests == uk1.manifests
                                        && uk.history == uk1.history);
                                } else {
                                    lemma_cache_store_wf(
                                        sk1.cache,
                                        id,
                                        Some(filled_state(data, t)),
                                    );
                                    assert(cache_state_of(sk.cache, id) == Some(
                                        filled_state(data, t),
                                    ));
                                    assert(cb == Some(filled_state(data, t)));
                                    assert(sk.manifests == spec_add_manifest(
                                        sk1,
                                        id.short_name(),
                                        data.manifest,
                                    ).manifests);
                                    assert(sk.history == spec_add_manifest(
                                        sk1,
                                        id.short_name(),
                                        data.manifest,
                                    ).history);
                                    if is_dirty_spec(
                                        CacheEntryView { id, state: cb },
                                        Some(d.mtime),
                                    ) {
                                        // The replay refills from the same
                                        // archive data.
                                        lemma_cache_store_wf(
                                            uk1.cache,
                                            id,
                                            Some(filled_state(data, t2)),
                                        );
                                        assert(uk.manifests == spec_add_manifest(
                                            uk1,
                                            id.short_name(),
                                            data.manifest,
                                        ).manifests);
                                        assert(uk.history == spec_add_manifest(
                                            uk1,
                                            id.short_name(),
                                            data.manifest,
                                        ).history);
                                    } else {
                                        // The replay reads the manifest the
                                        // first pass cached — the archive's.
                                        assert(uk == spec_add_manifest(
                                            uk1,
                                            id.short_name(),
                                            filled_state(data, t).manifest,
                                        ));
                                    }
                                    assert(uk.manifests == sk.manifests
                                        && uk.history == sk.history);
                                }
                            },
                        }
                    }
                }

                // Untouched entries still read as the first pass left them.
                assert forall|q: PackageIdView|
                    (forall|j: int|
                        0 <= j < k ==> decode_path_spec(
                            (#[trigger] disk[j]).path,
                            mv.repository,
                        ) != Some(q)) implies #[trigger] cache_state_of(uk.cache, q)
                    == cache_state_of(m1.cache, q) by {
                    assert(decode_path_spec(disk[k - 1].path, mv.repository) != Some(q));
                    assert(q != id);
                    lemma_step_cache_other(uk1, d, t2, q);
                    assert(forall|j: int|
                        0 <= j < k - 1 ==> decode_path_spec(
                            (#[trigger] disk[j]).path,
                            mv.repository,
                        ) != Some(q));
                }
            },
        }
    }
}

/// Resynchronizing twice over unchanged disk contents yields the identical
/// index: the same aggregate records, version maps and history order.  The
/// scanned locations are what a directory scan yields: pairwise distinct,
/// each of the `{category}/{name}/{file}` shape with the archive
/// extension.
pub proof fn lemma_resync_idempotent(
    mv: ManagerView,
    disk: Seq<DiskArchiveView>,
    t: int,
    t2: int,
)
    requires
        mv.wf(),
        forall|j: int| 0 <= j < disk.len() ==> scan_shaped((#[trigger] disk[j]).path),
        forall|j: int, l: int|
            0 <= j < l < disk.len() ==> (#[trigger] disk[j]).path != (#[trigger] disk[l]).path,
    ensures
        spec_resync(spec_resync(mv, disk, t), disk, t2).manifests == spec_resync(
            mv,
            disk,
            t,
        ).manifests,
        spec_resync(spec_resync(mv, disk, t), disk, t2).history == spec_resync(
            mv,
            disk,
            t,
        ).history,
{
    lemma_scan_distinct_ids(disk, mv.repository);
    lemma_resync_replay(mv, disk, t, t2, disk.len() as int);
    assert(disk.take(disk.len() as int) =~= disk);
}


// ---------------------------------------------------------------------------
// Failure containment of resynchronization
// ---------------------------------------------------------------------------

/// Two states with the same index whose caches agree outside one
/// identifier take one step to states with the same index, still agreeing
/// outside it, provided the step is not about that identifier.
proof fn lemma_step_congruent(
    a: ManagerView,
    b: ManagerView,
    d: DiskArchiveView,
    t: int,
    x: PackageIdView,
)
    requires
        a.wf(),
        b.wf(),
        a.manifests == b.manifests,
        a.history == b.history,
        a.repository == b.repository,
        forall|q: PackageIdView|
            q != x ==> #[trigger] cache_state_of(a.cache, q) == cache_state_of(b.cache, q),
        decode_path_spec(d.path, a.repository) != Some(x),
    ensures
        spec_resync_step(a, d, t).manifests == spec_resync_step(b, d, t).manifests,
        spec_resync_step(a, d, t).history == spec_resync_step(b, d, t).history,
        forall|q: PackageIdView|
            q != x ==> #[trigger] cache_state_of(spec_resync_step(a, d, t).cache, q)
                == cache_state_of(spec_resync_step(b, d, t).cache, q),
{
    let sa = spec_resync_step(a, d, t);
    let sb = spec_resync_step(b, d, t);
    match decode_path_spec(d.path, a.repository) {
        None => {},
        Some(id) => {
            assert(id != x);
            let c = cache_state_of(a.cache, id);
            assert(cache_state_of(b.cache, id) == c);
            if c is Some && !is_dirty_spec(CacheEntryView { id, state: c }, Some(d.mtime)) {
                assert(sa == spec_add_manifest(a, id.short_name(), c.unwrap().manifest));
                assert(sb == spec_add_manifest(b, id.short_name(), c.unwrap().manifest));
            } else {
                if !has_nest_ext(d.path) {
                } else {
                    match d.outcome {
                        ArchiveOutcomeView::Unreadable(_) => {
                            lemma_cache_store_wf(a.cache, id, None);
                            lemma_cache_store_wf(b.cache, id, None);
                        },
                        ArchiveOutcomeView::Parsed(data) => {
                            if !fill_ok(data) || data.manifest.name != id.name
                                || data.manifest.category != id.category || data.manifest.version
                                != id.version {
                                lemma_cache_store_wf(a.cache, id, None);
                                lemma_cache_store_wf(b.cache, id, None);
                            } else {
                                lemma_cache_store_wf(a.cache, id, Some(filled_state(data, t)));
                                lemma_cache_store_wf(b.cache, id, Some(filled_state(data, t)));
                            }
                        },
                    }
                }
            }
        },
    }
}

/// Folding archives of other identifiers over congruent states keeps them
/// congruent.
proof fn lemma_fold_congruent(
    a: ManagerView,
    b: ManagerView,
    disk: Seq<DiskArchiveView>,
    t: int,
    x: PackageIdView,
)
    requires
        a.wf(),
        b.wf(),
        a.manifests == b.manifests,
        a.history == b.history,
        a.repository == b.repository,
        forall|q: PackageIdView|
            q != x ==> #[trigger] cache_state_of(a.cache, q) == cache_state_of(b.cache, q),
        forall|j: int|
            0 <= j < disk.len() ==> decode_path_spec((#[trigger] disk[j]).path, a.repository)
                != Some(x),
    ensures
        spec_resync_from(a, disk, t).manifests == spec_resync_from(b, disk, t).manifests,
        spec_resync_from(a, disk, t).history == spec_resync_from(b, disk, t).history,
        forall|q: PackageIdView|
            q != x ==> #[trigger] cache_state_of(spec_resync_from(a, disk, t).cache, q)
                == cache_state_of(spec_resync_from(b, disk, t).cache, q),
    decreases disk.len(),
{
    if disk.len() > 0 {
        assert(forall|j: int|
            0 <= j < disk.drop_last().len() ==> disk.drop_last()[j] == disk[j]);
        lemma_fold_congruent(a, b, disk.drop_last(), t, x);
        crate::manager::lemma_spec_resync_from_wf(a, disk.drop_last(), t);
        crate::manager::lemma_spec_resync_from_wf(b, disk.drop_last(), t);
        assert(disk[disk.len() - 1] == disk.last());
        lemma_step_congruent(
            spec_resync_from(a, disk.drop_last(), t),
            spec_resync_from(b, disk.drop_last(), t),
            disk.last(),
            t,
            x,
        );
    } else {
        assert(spec_resync_from(a, disk, t) == a);
        assert(spec_resync_from(b, disk, t) == b);
    }
}

/// Whether the archive cannot be indexed through the full flush path: its
/// location does not decode, it cannot be read, it lacks its payload, or
/// its manifest disagrees with its location.
pub open spec fn archive_fails(d: DiskArchiveView, repo: Seq<char>) -> bool {
    match decode_path_spec(d.path, repo) {
        None => true,
        Some(id) => match d.outcome {
            ArchiveOutcomeView::Unreadable(_) => true,
            ArchiveOutcomeView::Parsed(data) => !fill_ok(data) || data.manifest.name != id.name
                || data.manifest.category != id.category || data.manifest.version != id.version,
        },
    }
}

/// A failing archive contributes nothing: resynchronizing over a listing
/// that holds it yields the same index and history as over the listing
/// without it — the remaining archives are indexed as if it were absent.
/// The locations are a directory scan's (distinct, scan-shaped), and the
/// failing archive has no current clean cache entry: with one, the fast
/// path would legitimately index its cached copy instead of failing.
pub proof fn lemma_resync_containment(
    mv: ManagerView,
    disk: Seq<DiskArchiveView>,
    t: int,
    k: int,
)
    requires
        mv.wf(),
        forall|j: int| 0 <= j < disk.len() ==> scan_shaped((#[trigger] disk[j]).path),
        forall|j: int, l: int|
            0 <= j < l < disk.len() ==> (#[trigger] disk[j]).path != (#[trigger] disk[l]).path,
        0 <= k < disk.len(),
        archive_fails(disk[k], mv.repository),
        match decode_path_spec(disk[k].path, mv.repository) {
            None => true,
            Some(id) => cache_state_of(mv.cache, id) is None || is_dirty_spec(
                CacheEntryView { id, state: cache_state_of(mv.cache, id) },
                Some(disk[k].mtime),
            ),
        },
    ensures
        spec_resync(mv, disk, t).manifests == spec_resync(mv, disk.remove(k), t).manifests,
        spec_resync(mv, disk, t).history == spec_resync(mv, disk.remove(k), t).history,
{
    lemma_scan_distinct_ids(disk, mv.repository);
    let d = disk[k];
    let pre = spec_resync_from(cleared(mv), disk.take(k), t);
    crate::manager::lemma_spec_resync_from_wf(cleared(mv), disk.take(k), t);
    assert(pre.repository == mv.repository);

    // Both scans agree up to the failing archive.
    assert(disk.remove(k).take(k) =~= disk.take(k));

    // Split both folds there.
    lemma_fold_split(cleared(mv), disk, t, k + 1);
    lemma_fold_split(cleared(mv), disk.remove(k), t, k);
    assert(disk.take(k + 1).drop_last() =~= disk.take(k));
    assert(disk.take(k + 1).last() == d);
    assert(spec_resync_from(cleared(mv), disk.take(k + 1), t) == spec_resync_step(pre, d, t));
    let after = spec_resync_step(pre, d, t);
    assert(disk.remove(k).skip(k) =~= disk.skip(k + 1));

    // The failing step leaves the index unchanged; at most its own cache
    // entry moves.
    match decode_path_spec(d.path, mv.repository) {
        None => {
            assert(after == pre);
        },
        Some(id) => {
            // The cache entry seen at this step is the one the scan
            // started with: no earlier archive has this identifier.
            assert(forall|j: int|
                0 <= j < disk.take(k).len() ==> disk.take(k)[j] == disk[j]);
            assert(forall|j: int|
                0 <= j < disk.take(k).len() ==> decode_path_spec(
                    (#[trigger] disk.take(k)[j]).path,
                    mv.repository,
                ) != Some(id));
            lemma_fold_cache_stable(cleared(mv), disk.take(k), t, id);
            let c0 = cache_state_of(pre.cache, id);
            assert(c0 == cache_state_of(mv.cache, id));
            assert(c0 is None || is_dirty_spec(CacheEntryView { id, state: c0 }, Some(d.mtime)));
            // The flush path fails, so the index is untouched.
            assert(after.manifests == pre.manifests && after.history == pre.history) by {
                if has_nest_ext(d.path) {
                    match d.outcome {
                        ArchiveOutcomeView::Unreadable(_) => {},
                        ArchiveOutcomeView::Parsed(data) => {},
                    }
                }
            }
            assert forall|q: PackageIdView| q != id implies #[trigger] cache_state_of(
                after.cache,
                q,
            ) == cache_state_of(pre.cache, q) by {
                lemma_step_cache_other(pre, d, t, q);
            }
            crate::manager::lemma_spec_resync_step_wf(pre, d, t);
            assert(forall|j: int|
                0 <= j < disk.skip(k + 1).len() ==> #[trigger] disk.skip(k + 1)[j] == disk[j + k
                    + 1]);
            assert(forall|j: int|
                0 <= j < disk.skip(k + 1).len() ==> decode_path_spec(
                    (#[trigger] disk.skip(k + 1)[j]).path,
                    mv.repository,
                ) != Some(id));
            lemma_fold_congruent(after, pre, disk.skip(k + 1), t, id);
        },
    }
}

} // verus!
