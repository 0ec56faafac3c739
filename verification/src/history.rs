//! The history ring: a bounded record of the most recently updated
//! packages, ordered by date descending, at most one entry per package.

use vstd::prelude::*;

use crate::codec::FullNameView;
use crate::manifest::{latest_wrap, lemma_latest_wrap_spec, PackageManifest, PackageManifestView};

verus! {

/// The bound on the number of history entries.
pub const HISTORY_SIZE: usize = 15;

/// One history record: the date of the most recently wrapped version and a
/// snapshot of the aggregate record at that time.
pub struct HistoryEntry {
    pub date: i64,
    pub manifest: PackageManifest,
}

pub struct HistoryEntryView {
    pub date: int,
    pub manifest: PackageManifestView,
}

impl View for HistoryEntry {
    type V = HistoryEntryView;

    open spec fn view(&self) -> HistoryEntryView {
        HistoryEntryView { date: self.date as int, manifest: self.manifest@ }
    }
}

impl Clone for HistoryEntry {
    fn clone(&self) -> (r: Self)
        ensures
            r@ == self@,
    {
        HistoryEntry { date: self.date, manifest: self.manifest.clone() }
    }
}

impl HistoryEntry {
    /// The entry's date.
    pub fn date(&self) -> (r: i64)
        ensures
            r as int == self@.date,
    {
        self.date
    }

    /// The recorded aggregate snapshot.
    pub fn manifest(&self) -> (r: &PackageManifest)
        ensures
            r@ == self@.manifest,
    {
        &self.manifest
    }
}

// ---------------------------------------------------------------------------
// Specification of one insertion
// ---------------------------------------------------------------------------

/// The entries that do not belong to the given package.
pub open spec fn retain_other(entries: Seq<HistoryEntryView>, full: FullNameView) -> Seq<
    HistoryEntryView,
>
    decreases entries.len(),
{
    if entries.len() == 0 {
        entries
    } else {
        let rest = retain_other(entries.drop_last(), full);
        if entries.last().manifest.full_name() != full {
            rest.push(entries.last())
        } else {
            rest
        }
    }
}

/// The position that keeps descending date order: the first index whose
/// date is not newer than the inserted one.
pub open spec fn insert_pos(entries: Seq<HistoryEntryView>, date: int) -> int
    decreases entries.len(),
{
    if entries.len() == 0 {
        0
    } else if entries[0].date <= date {
        0
    } else {
        1 + insert_pos(entries.drop_first(), date)
    }
}

/// One insertion: drop the package's old entry, insert the new one in date
/// order, truncate to the bound.
pub open spec fn history_add(
    entries: Seq<HistoryEntryView>,
    pm: PackageManifestView,
) -> Seq<HistoryEntryView> {
    if pm.versions.len() == 0 {
        entries
    } else {
        let date = latest_wrap(pm.versions);
        let retained = retain_other(entries, pm.full_name());
        let inserted = retained.insert(
            insert_pos(retained, date),
            HistoryEntryView { date, manifest: pm },
        );
        if inserted.len() > HISTORY_SIZE as int {
            inserted.take(HISTORY_SIZE as int)
        } else {
            inserted
        }
    }
}

pub proof fn lemma_retain_other_spec(entries: Seq<HistoryEntryView>, full: FullNameView)
    ensures
        retain_other(entries, full).len() <= entries.len(),
        forall|i: int|
            0 <= i < retain_other(entries, full).len() ==> (#[trigger] retain_other(entries, full)[i]).manifest.full_name()
                != full,
        forall|i: int|
            0 <= i < retain_other(entries, full).len() ==> exists|k: int|
                0 <= k < entries.len() && #[trigger] retain_other(entries, full)[i] == entries[k],
        forall|i: int, j: int|
            0 <= i < j < retain_other(entries, full).len() ==> exists|k: int, l: int|
                0 <= k < l < entries.len() && (#[trigger] retain_other(entries, full)[i],
                #[trigger] retain_other(entries, full)[j]) == (entries[k], entries[l]),
    decreases entries.len(),
{
    if entries.len() > 0 {
        lemma_retain_other_spec(entries.drop_last(), full);
        let rest = retain_other(entries.drop_last(), full);
        let out = retain_other(entries, full);
        assert(forall|k: int|
            0 <= k < entries.drop_last().len() ==> entries.drop_last()[k] == entries[k]);
        if entries.last().manifest.full_name() != full {
            assert forall|i: int| 0 <= i < out.len() implies exists|k: int|
                0 <= k < entries.len() && #[trigger] out[i] == entries[k] by {
                if i < rest.len() {
                    assert(out[i] == rest[i]);
                    let k = choose|k: int|
                        0 <= k < entries.drop_last().len() && #[trigger] rest[i]
                            == entries.drop_last()[k];
                    assert(out[i] == entries[k]);
                } else {
                    assert(out[i] == entries[entries.len() - 1]);
                }
            }
            assert forall|i: int, j: int| 0 <= i < j < out.len() implies exists|k: int, l: int|
                0 <= k < l < entries.len() && (#[trigger] out[i], #[trigger] out[j]) == (
            entries[k],
            entries[l],
            ) by {
                if j < rest.len() {
                    assert(out[i] == rest[i] && out[j] == rest[j]);
                    let (k, l) = choose|k: int, l: int|
                        0 <= k < l < entries.drop_last().len() && (#[trigger] rest[i],
                        #[trigger] rest[j]) == (entries.drop_last()[k], entries.drop_last()[l]);
                    assert((out[i], out[j]) == (entries[k], entries[l]));
                } else {
                    assert(out[j] == entries[entries.len() - 1]);
                    assert(out[i] == rest[i]);
                    let k = choose|k: int|
                        0 <= k < entries.drop_last().len() && #[trigger] rest[i]
                            == entries.drop_last()[k];
                    assert((out[i], out[j]) == (entries[k], entries[entries.len() - 1]));
                }
            }
        } else {
            assert forall|i: int| 0 <= i < out.len() implies exists|k: int|
                0 <= k < entries.len() && #[trigger] out[i] == entries[k] by {
                let k = choose|k: int|
                    0 <= k < entries.drop_last().len() && #[trigger] rest[i]
                        == entries.drop_last()[k];
                assert(out[i] == entries[k]);
            }
            assert forall|i: int, j: int| 0 <= i < j < out.len() implies exists|k: int, l: int|
                0 <= k < l < entries.len() && (#[trigger] out[i], #[trigger] out[j]) == (
            entries[k],
            entries[l],
            ) by {
                let (k, l) = choose|k: int, l: int|
                    0 <= k < l < entries.drop_last().len() && (#[trigger] rest[i],
                    #[trigger] rest[j]) == (entries.drop_last()[k], entries.drop_last()[l]);
                assert((out[i], out[j]) == (entries[k], entries[l]));
            }
        }
    }
}

pub proof fn lemma_insert_pos_spec(entries: Seq<HistoryEntryView>, date: int)
    ensures
        0 <= insert_pos(entries, date) <= entries.len(),
        forall|j: int| 0 <= j < insert_pos(entries, date) ==> (#[trigger] entries[j]).date > date,
        insert_pos(entries, date) < entries.len() ==> entries[insert_pos(entries, date)].date
            <= date,
    decreases entries.len(),
{
    if entries.len() > 0 && entries[0].date > date {
        let d = entries.drop_first();
        lemma_insert_pos_spec(d, date);
        assert(forall|j: int| 0 <= j < d.len() ==> d[j] == entries[j + 1]);
        assert forall|j: int| 0 <= j < insert_pos(entries, date) implies (
        #[trigger] entries[j]).date > date by {
            if j > 0 {
                assert(d[j - 1] == entries[j]);
            }
        }
    }
}

// ---------------------------------------------------------------------------
// Well-formedness
// ---------------------------------------------------------------------------

/// Dates descending, names pairwise distinct, and within the bound.
pub open spec fn history_wf(entries: Seq<HistoryEntryView>) -> bool {
    &&& entries.len() <= HISTORY_SIZE as int
    &&& forall|i: int, j: int|
        0 <= i < j < entries.len() ==> (#[trigger] entries[i]).date >= (
        #[trigger] entries[j]).date
    &&& forall|i: int, j: int|
        0 <= i < j < entries.len() ==> (#[trigger] entries[i]).manifest.full_name() != (
        #[trigger] entries[j]).manifest.full_name()
}

/// One insertion keeps the history well-formed, and never leaves it empty.
pub proof fn lemma_history_add_wf(entries: Seq<HistoryEntryView>, pm: PackageManifestView)
    requires
        history_wf(entries),
    ensures
        history_wf(history_add(entries, pm)),
        pm.versions.len() > 0 ==> history_add(entries, pm).len() >= 1,
        pm.versions.len() > 0 ==> history_add(entries, pm).len() == (if retain_other(
            entries,
            pm.full_name(),
        ).len() + 1 > HISTORY_SIZE as int {
            HISTORY_SIZE as int
        } else {
            retain_other(entries, pm.full_name()).len() as int + 1
        }),
{
    if pm.versions.len() == 0 {
        return ;
    }
    let date = latest_wrap(pm.versions);
    let full = pm.full_name();
    let retained = retain_other(entries, full);
    lemma_retain_other_spec(entries, full);
    let pos = insert_pos(retained, date);
    lemma_insert_pos_spec(retained, date);
    let entry = HistoryEntryView { date, manifest: pm };
    let inserted = retained.insert(pos, entry);
    retained.insert_ensures(pos, entry);

    // Order and distinctness carry from `entries` through `retained`.
    assert forall|i: int, j: int| 0 <= i < j < retained.len() implies (
    #[trigger] retained[i]).date >= (#[trigger] retained[j]).date && retained[i].manifest.full_name()
        != retained[j].manifest.full_name() by {
        let (k, l) = choose|k: int, l: int|
            0 <= k < l < entries.len() && (#[trigger] retained[i], #[trigger] retained[j]) == (
            entries[k],
            entries[l],
            );
        assert(entries[k].date >= entries[l].date);
    }

    assert forall|i: int, j: int| 0 <= i < j < inserted.len() implies (
    #[trigger] inserted[i]).date >= (#[trigger] inserted[j]).date && inserted[i].manifest.full_name()
        != inserted[j].manifest.full_name() by {
        if i < pos && j < pos {
            assert(inserted[i] == retained[i] && inserted[j] == retained[j]);
        } else if i < pos && j == pos {
            assert(inserted[i] == retained[i] && inserted[j] == entry);
            assert(retained[i].date > date);
            assert(retained[i].manifest.full_name() != full);
        } else if i < pos && j > pos {
            assert(inserted[i] == retained[i] && inserted[j] == retained[j - 1]);
        } else if i == pos && j > pos {
            assert(inserted[i] == entry && inserted[j] == retained[j - 1]);
            assert(retained[j - 1].date <= date) by {
                if j - 1 > pos {
                    assert(retained[pos].date >= retained[j - 1].date);
                }
            }
            assert(retained[j - 1].manifest.full_name() != full);
        } else {
            assert(inserted[i] == retained[i - 1] && inserted[j] == retained[j - 1]);
        }
    }

    let out = history_add(entries, pm);
    if inserted.len() > HISTORY_SIZE as int {
        assert(out =~= inserted.take(HISTORY_SIZE as int));
        assert(forall|i: int| 0 <= i < out.len() ==> out[i] == inserted[i]);
    } else {
        assert(out == inserted);
    }
}

// ---------------------------------------------------------------------------
// The executable ring
// ---------------------------------------------------------------------------

/// A bounded, date-ordered record of the most recently updated packages.
pub struct History {
    entries: Vec<HistoryEntry>,
}

impl View for History {
    type V = Seq<HistoryEntryView>;

    closed spec fn view(&self) -> Seq<HistoryEntryView> {
        self.entries@.map_values(|e: HistoryEntry| e@)
    }
}

impl History {
    /// An empty history.
    pub fn new() -> (r: Self)
        ensures
            r@ == Seq::<HistoryEntryView>::empty(),
            history_wf(r@),
    {
        let r = History { entries: Vec::new() };
        proof {
            assert(r@ =~= Seq::<HistoryEntryView>::empty());
        }
        r
    }

    /// The recorded entries, most recent first.
    pub fn entries(&self) -> (r: &Vec<HistoryEntry>)
        ensures
            r@.map_values(|e: HistoryEntry| e@) == self@,
    {
        &self.entries
    }

    /// Forgets all entries.
    pub fn clear(&mut self)
        ensures
            final(self)@ == Seq::<HistoryEntryView>::empty(),
    {
        self.entries.clear();
        proof {
            assert(self@ =~= Seq::<HistoryEntryView>::empty());
        }
    }

    /// Records an update of the given aggregate: its most recently wrapped
    /// version dates the entry; any previous entry of the same package is
    /// replaced; the oldest entry beyond the bound is dropped.  An
    /// aggregate without versions is ignored.
    pub fn add_manifest(&mut self, manifest: PackageManifest)
        ensures
            final(self)@ == history_add(old(self)@, manifest@),
    {
        let ghost entries0 = self@;
        let ghost mview = manifest@;
        if manifest.versions.len() == 0 {
            return ;
        }
        let date = manifest.latest_wrap_date();
        let full = manifest.full_name();
        let ghost fullv = mview.full_name();

        // Drop any previous entry of the same package.
        let mut kept: Vec<HistoryEntry> = Vec::new();
        let mut i: usize = 0;
        proof {
            assert(entries0.take(0) =~= Seq::<HistoryEntryView>::empty());
            assert(kept@.map_values(|e: HistoryEntry| e@) =~= retain_other(
                entries0.take(0),
                fullv,
            ));
        }
        while i < self.entries.len()
            invariant
                0 <= i <= self.entries@.len(),
                self@ == entries0,
                entries0 == self.entries@.map_values(|e: HistoryEntry| e@),
                fullv == mview.full_name(),
                full@ == fullv,
                kept@.map_values(|e: HistoryEntry| e@) == retain_other(
                    entries0.take(i as int),
                    fullv,
                ),
            decreases self.entries@.len() - i,
        {
            let ghost pre = kept@.map_values(|e: HistoryEntry| e@);
            let keep = !self.entries[i].manifest.full_name().same_as(&full);
            proof {
                assert(entries0[i as int] == self.entries@[i as int]@);
                let t = entries0.take(i as int + 1);
                assert(t.len() == i + 1);
                assert(t.drop_last() =~= entries0.take(i as int));
                assert(t.last() == entries0[i as int]);
                assert(retain_other(t, fullv) == (if t.last().manifest.full_name() != fullv {
                    retain_other(t.drop_last(), fullv).push(t.last())
                } else {
                    retain_other(t.drop_last(), fullv)
                }));
                assert(keep == (entries0[i as int].manifest.full_name() != fullv));
            }
            if keep {
                let e = self.entries[i].clone();
                kept.push(e);
                proof {
                    assert(kept@.map_values(|e: HistoryEntry| e@) =~= pre.push(
                        entries0[i as int],
                    ));
                    assert(retain_other(entries0.take(i as int + 1), fullv) == retain_other(
                        entries0.take(i as int),
                        fullv,
                    ).push(entries0[i as int]));
                }
            } else {
                proof {
                    assert(retain_other(entries0.take(i as int + 1), fullv) == retain_other(
                        entries0.take(i as int),
                        fullv,
                    ));
                }
            }
            i = i + 1;
        }
        proof {
            assert(entries0.take(entries0.len() as int) =~= entries0);
        }

        // Find the position that keeps descending date order.
        let ghost retainedv = retain_other(entries0, fullv);
        let mut pos: usize = 0;
        proof {
            lemma_insert_pos_spec(retainedv, date as int);
        }
        while pos < kept.len() && kept[pos].date > date
            invariant
                0 <= pos <= kept@.len(),
                retainedv == kept@.map_values(|e: HistoryEntry| e@),
                forall|j: int| 0 <= j < pos ==> (#[trigger] retainedv[j]).date > date as int,
            decreases kept@.len() - pos,
        {
            proof {
                assert(retainedv[pos as int] == kept@[pos as int]@);
            }
            pos = pos + 1;
        }
        proof {
            assert(pos < kept@.len() ==> retainedv[pos as int].date <= date as int);
            lemma_insert_pos_spec(retainedv, date as int);
            assert(insert_pos(retainedv, date as int) == pos as int) by {
                let p = insert_pos(retainedv, date as int);
                if p < pos {
                    assert(retainedv[p].date > date as int);
                }
                if p > pos {
                    assert(retainedv[pos as int].date > date as int);
                }
            }
        }

        let entry = HistoryEntry { date, manifest };
        kept.insert(pos, entry);
        if kept.len() > HISTORY_SIZE {
            kept.truncate(HISTORY_SIZE);
        }
        self.entries = kept;
        proof {
            let inserted = retainedv.insert(
                insert_pos(retainedv, date as int),
                HistoryEntryView { date: date as int, manifest: mview },
            );
            assert(self@ =~= history_add(entries0, mview)) by {
                assert(self.entries@.map_values(|e: HistoryEntry| e@) =~= (if inserted.len()
                    > HISTORY_SIZE as int {
                    inserted.take(HISTORY_SIZE as int)
                } else {
                    inserted
                }));
            }
        }
    }

}

} // verus!
