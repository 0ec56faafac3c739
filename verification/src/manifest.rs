//! Manifests: the per-archive descriptor, and the cross-version aggregate
//! record kept by the index.

use vstd::prelude::*;

use crate::codec::{FullNameView, PackageFullName, ShortNameView};
use crate::strutil::{clone_range, str_eq};
use crate::version::{Version, VersionView};

verus! {

/// Whether a package carries installable content (`Effective`) or is
/// metadata-only (`Virtual`).
#[derive(Clone, Copy, PartialEq, Eq, Structural, Debug)]
pub enum Kind {
    Effective,
    Virtual,
}

/// Descriptive package metadata shared by all versions.
pub struct Metadata {
    pub description: String,
    pub tags: Vec<String>,
}

pub struct MetadataView {
    pub description: Seq<char>,
    pub tags: Seq<Seq<char>>,
}

impl View for Metadata {
    type V = MetadataView;

    open spec fn view(&self) -> MetadataView {
        MetadataView {
            description: self.description@,
            tags: self.tags@.map_values(|t: String| t@),
        }
    }
}

impl Clone for Metadata {
    fn clone(&self) -> (r: Self)
        ensures
            r@ == self@,
    {
        let tags = clone_range(&self.tags, 0, self.tags.len());
        proof {
            assert(self.tags@.map_values(|t: String| t@).subrange(
                0,
                self.tags@.len() as int,
            ) =~= self.tags@.map_values(|t: String| t@));
        }
        Metadata { description: self.description.clone(), tags }
    }
}

/// One dependency: the depended-on package's full name and the accepted
/// version requirement, both kept textually.
pub struct Dependency {
    pub full_name: String,
    pub requirement: String,
}

pub struct DependencyView {
    pub full_name: Seq<char>,
    pub requirement: Seq<char>,
}

impl View for Dependency {
    type V = DependencyView;

    open spec fn view(&self) -> DependencyView {
        DependencyView { full_name: self.full_name@, requirement: self.requirement@ }
    }
}

impl Clone for Dependency {
    fn clone(&self) -> (r: Self)
        ensures
            r@ == self@,
    {
        Dependency { full_name: self.full_name.clone(), requirement: self.requirement.clone() }
    }
}

/// Clones a dependency list.
pub fn clone_dependencies(deps: &Vec<Dependency>) -> (r: Vec<Dependency>)
    ensures
        r@.map_values(|d: Dependency| d@) == deps@.map_values(|d: Dependency| d@),
{
    let mut r: Vec<Dependency> = Vec::new();
    let mut i: usize = 0;
    while i < deps.len()
        invariant
            0 <= i <= deps@.len(),
            r@.map_values(|d: Dependency| d@) == deps@.map_values(|d: Dependency| d@).take(
                i as int,
            ),
        decreases deps@.len() - i,
    {
        let ghost pre = r@.map_values(|d: Dependency| d@);
        r.push(deps[i].clone());
        proof {
            let m = deps@.map_values(|d: Dependency| d@);
            assert(m[i as int] == deps@[i as int]@);
            assert(r@.map_values(|d: Dependency| d@) =~= pre.push(m[i as int]));
            assert(m.take(i as int + 1) =~= m.take(i as int).push(m[i as int]));
        }
        i = i + 1;
    }
    proof {
        let m = deps@.map_values(|d: Dependency| d@);
        assert(m.take(m.len() as int) =~= m);
    }
    r
}

/// The per-version facts kept in the aggregate record.
pub struct VersionData {
    pub slot: String,
    pub kind: Kind,
    pub wrap_date: i64,
    pub dependencies: Vec<Dependency>,
}

pub struct VersionDataView {
    pub slot: Seq<char>,
    pub kind: Kind,
    pub wrap_date: int,
    pub dependencies: Seq<DependencyView>,
}

impl View for VersionData {
    type V = VersionDataView;

    open spec fn view(&self) -> VersionDataView {
        VersionDataView {
            slot: self.slot@,
            kind: self.kind,
            wrap_date: self.wrap_date as int,
            dependencies: self.dependencies@.map_values(|d: Dependency| d@),
        }
    }
}

impl Clone for VersionData {
    fn clone(&self) -> (r: Self)
        ensures
            r@ == self@,
    {
        VersionData {
            slot: self.slot.clone(),
            kind: self.kind,
            wrap_date: self.wrap_date,
            dependencies: clone_dependencies(&self.dependencies),
        }
    }
}

/// The descriptor read from one archive.
pub struct Manifest {
    pub name: String,
    pub category: String,
    pub version: Version,
    pub slot: String,
    pub kind: Kind,
    pub wrap_date: i64,
    pub dependencies: Vec<Dependency>,
    pub metadata: Metadata,
}

pub struct ManifestView {
    pub name: Seq<char>,
    pub category: Seq<char>,
    pub version: VersionView,
    pub slot: Seq<char>,
    pub kind: Kind,
    pub wrap_date: int,
    pub dependencies: Seq<DependencyView>,
    pub metadata: MetadataView,
}

impl View for Manifest {
    type V = ManifestView;

    open spec fn view(&self) -> ManifestView {
        ManifestView {
            name: self.name@,
            category: self.category@,
            version: self.version@,
            slot: self.slot@,
            kind: self.kind,
            wrap_date: self.wrap_date as int,
            dependencies: self.dependencies@.map_values(|d: Dependency| d@),
            metadata: self.metadata@,
        }
    }
}

impl Clone for Manifest {
    fn clone(&self) -> (r: Self)
        ensures
            r@ == self@,
    {
        Manifest {
            name: self.name.clone(),
            category: self.category.clone(),
            version: self.version.clone(),
            slot: self.slot.clone(),
            kind: self.kind,
            wrap_date: self.wrap_date,
            dependencies: clone_dependencies(&self.dependencies),
            metadata: self.metadata.clone(),
        }
    }
}

impl ManifestView {
    /// The per-version facts this descriptor contributes to the aggregate.
    pub open spec fn version_data(self) -> VersionDataView {
        VersionDataView {
            slot: self.slot,
            kind: self.kind,
            wrap_date: self.wrap_date,
            dependencies: self.dependencies,
        }
    }
}

impl Manifest {
    /// Extracts the per-version facts of this descriptor.
    pub fn version_data(&self) -> (r: VersionData)
        ensures
            r@ == self@.version_data(),
    {
        VersionData {
            slot: self.slot.clone(),
            kind: self.kind,
            wrap_date: self.wrap_date,
            dependencies: clone_dependencies(&self.dependencies),
        }
    }
}

// ---------------------------------------------------------------------------
// The cross-version aggregate
// ---------------------------------------------------------------------------

/// The aggregate record for one package: shared metadata and all known
/// versions.
pub struct PackageManifest {
    pub name: String,
    pub category: String,
    pub repository: String,
    pub metadata: Metadata,
    pub versions: Vec<(Version, VersionData)>,
}

pub struct PackageManifestView {
    pub name: Seq<char>,
    pub category: Seq<char>,
    pub repository: Seq<char>,
    pub metadata: MetadataView,
    pub versions: Seq<(VersionView, VersionDataView)>,
}

impl View for PackageManifest {
    type V = PackageManifestView;

    open spec fn view(&self) -> PackageManifestView {
        PackageManifestView {
            name: self.name@,
            category: self.category@,
            repository: self.repository@,
            metadata: self.metadata@,
            versions: self.versions@.map_values(|p: (Version, VersionData)| (p.0@, p.1@)),
        }
    }
}

impl Clone for PackageManifest {
    fn clone(&self) -> (r: Self)
        ensures
            r@ == self@,
    {
        let mut versions: Vec<(Version, VersionData)> = Vec::new();
        let mut i: usize = 0;
        let ghost m = self.versions@.map_values(|p: (Version, VersionData)| (p.0@, p.1@));
        while i < self.versions.len()
            invariant
                0 <= i <= self.versions@.len(),
                m == self.versions@.map_values(|p: (Version, VersionData)| (p.0@, p.1@)),
                versions@.map_values(|p: (Version, VersionData)| (p.0@, p.1@)) == m.take(i as int),
            decreases self.versions@.len() - i,
        {
            let ghost pre = versions@.map_values(|p: (Version, VersionData)| (p.0@, p.1@));
            let v = self.versions[i].0.clone();
            let d = self.versions[i].1.clone();
            versions.push((v, d));
            proof {
                assert(m[i as int] == (self.versions@[i as int].0@, self.versions@[i as int].1@));
                assert(versions@.map_values(|p: (Version, VersionData)| (p.0@, p.1@)) =~= pre.push(
                    m[i as int],
                ));
                assert(m.take(i as int + 1) =~= m.take(i as int).push(m[i as int]));
            }
            i = i + 1;
        }
        proof {
            assert(m.take(m.len() as int) =~= m);
        }
        PackageManifest {
            name: self.name.clone(),
            category: self.category.clone(),
            repository: self.repository.clone(),
            metadata: self.metadata.clone(),
            versions,
        }
    }
}

impl PackageManifestView {
    pub open spec fn short_name(self) -> ShortNameView {
        ShortNameView { category: self.category, name: self.name }
    }

    pub open spec fn full_name(self) -> FullNameView {
        FullNameView { repository: self.repository, category: self.category, name: self.name }
    }

    /// Version keys are pairwise distinct.
    pub open spec fn wf(self) -> bool {
        forall|i: int, j: int|
            0 <= i < j < self.versions.len() ==> (#[trigger] self.versions[i]).0 != (
            #[trigger] self.versions[j]).0
    }
}

/// The greatest wrap date among the versions (the most recently produced
/// version's timestamp).
pub open spec fn latest_wrap(versions: Seq<(VersionView, VersionDataView)>) -> int
    decreases versions.len(),
{
    if versions.len() == 0 {
        0
    } else if versions.len() == 1 {
        versions[0].1.wrap_date
    } else {
        let rest = latest_wrap(versions.drop_last());
        if versions.last().1.wrap_date > rest {
            versions.last().1.wrap_date
        } else {
            rest
        }
    }
}

pub proof fn lemma_latest_wrap_spec(versions: Seq<(VersionView, VersionDataView)>)
    requires
        versions.len() > 0,
    ensures
        exists|i: int|
            0 <= i < versions.len() && (#[trigger] versions[i]).1.wrap_date == latest_wrap(
                versions,
            ),
        forall|i: int|
            0 <= i < versions.len() ==> (#[trigger] versions[i]).1.wrap_date <= latest_wrap(
                versions,
            ),
    decreases versions.len(),
{
    if versions.len() > 1 {
        lemma_latest_wrap_spec(versions.drop_last());
        let rest = latest_wrap(versions.drop_last());
        let w = choose|i: int|
            0 <= i < versions.drop_last().len() && (#[trigger] versions.drop_last()[i]).1.wrap_date
                == rest;
        assert(versions[w] == versions.drop_last()[w]);
        assert(forall|i: int|
            0 <= i < versions.len() - 1 ==> versions[i] == versions.drop_last()[i]);
        if versions.last().1.wrap_date > rest {
            assert(versions[versions.len() - 1].1.wrap_date == latest_wrap(versions));
        } else {
            assert(versions[w].1.wrap_date == latest_wrap(versions));
        }
    } else {
        assert(versions[0].1.wrap_date == latest_wrap(versions));
    }
}

/// The first index holding the given version key.
pub open spec fn find_version_index(
    versions: Seq<(VersionView, VersionDataView)>,
    v: VersionView,
) -> Option<int>
    decreases versions.len(),
{
    if versions.len() == 0 {
        None
    } else if versions[0].0 == v {
        Some(0)
    } else {
        match find_version_index(versions.drop_first(), v) {
            None => None,
            Some(i) => Some(i + 1),
        }
    }
}

pub proof fn lemma_find_version_index_spec(
    versions: Seq<(VersionView, VersionDataView)>,
    v: VersionView,
)
    ensures
        find_version_index(versions, v) matches Some(i) ==> 0 <= i < versions.len() && versions[i].0
            == v && (forall|j: int| 0 <= j < i ==> (#[trigger] versions[j]).0 != v),
        find_version_index(versions, v) is None ==> forall|j: int|
            0 <= j < versions.len() ==> (#[trigger] versions[j]).0 != v,
    decreases versions.len(),
{
    if versions.len() > 0 && versions[0].0 != v {
        let d = versions.drop_first();
        lemma_find_version_index_spec(d, v);
        assert(forall|j: int| 0 <= j < d.len() ==> d[j] == versions[j + 1]);
        match find_version_index(d, v) {
            None => {
                assert forall|j: int| 0 <= j < versions.len() implies (#[trigger] versions[j]).0
                    != v by {
                    if j > 0 {
                        assert(d[j - 1] == versions[j]);
                    }
                }
            },
            Some(i) => {
                assert(d[i] == versions[i + 1]);
                assert forall|j: int| 0 <= j < i + 1 implies (#[trigger] versions[j]).0 != v by {
                    if j > 0 {
                        assert(d[j - 1] == versions[j]);
                    }
                }
            },
        }
    }
}

/// The aggregation step: adopt the metadata when the new descriptor is the
/// most recently wrapped, then insert or replace its version entry.
pub open spec fn pm_upsert(pm: PackageManifestView, m: ManifestView) -> PackageManifestView {
    let metadata = if pm.versions.len() > 0 && latest_wrap(pm.versions) < m.wrap_date {
        m.metadata
    } else {
        pm.metadata
    };
    let entry = (m.version, m.version_data());
    let versions = match find_version_index(pm.versions, m.version) {
        Some(i) => pm.versions.update(i, entry),
        None => pm.versions.push(entry),
    };
    PackageManifestView {
        name: pm.name,
        category: pm.category,
        repository: pm.repository,
        metadata,
        versions,
    }
}

/// A fresh aggregate record, before any version is inserted.
pub open spec fn pm_fresh(
    short: ShortNameView,
    repository: Seq<char>,
    metadata: MetadataView,
) -> PackageManifestView {
    PackageManifestView {
        name: short.name,
        category: short.category,
        repository,
        metadata,
        versions: Seq::empty(),
    }
}

/// Removal of one version; the record keeps its metadata.
pub open spec fn pm_remove_version(
    pm: PackageManifestView,
    v: VersionView,
) -> PackageManifestView {
    match find_version_index(pm.versions, v) {
        Some(i) => PackageManifestView {
            name: pm.name,
            category: pm.category,
            repository: pm.repository,
            metadata: pm.metadata,
            versions: pm.versions.remove(i),
        },
        None => pm,
    }
}

/// Upserting preserves distinctness of version keys.
pub proof fn lemma_pm_upsert_wf(pm: PackageManifestView, m: ManifestView)
    requires
        pm.wf(),
    ensures
        pm_upsert(pm, m).wf(),
        pm_upsert(pm, m).versions.len() >= 1,
        pm_upsert(pm, m).short_name() == pm.short_name(),
{
    lemma_find_version_index_spec(pm.versions, m.version);
    let after = pm_upsert(pm, m).versions;
    match find_version_index(pm.versions, m.version) {
        Some(i) => {
            assert forall|a: int, b: int| 0 <= a < b < after.len() implies (
            #[trigger] after[a]).0 != (#[trigger] after[b]).0 by {
                assert(pm.versions[a].0 != pm.versions[b].0);
                if a != i && b != i {
                    assert(after[a] == pm.versions[a]);
                    assert(after[b] == pm.versions[b]);
                } else if a == i {
                    assert(after[b] == pm.versions[b]);
                    if pm.versions[b].0 == m.version {
                        assert(pm.versions[i].0 == m.version);
                    }
                } else {
                    assert(after[a] == pm.versions[a]);
                    if pm.versions[a].0 == m.version {
                        assert(pm.versions[i].0 == m.version);
                    }
                }
            }
        },
        None => {
            assert forall|a: int, b: int| 0 <= a < b < after.len() implies (
            #[trigger] after[a]).0 != (#[trigger] after[b]).0 by {
                if b < after.len() - 1 {
                    assert(after[a] == pm.versions[a]);
                    assert(after[b] == pm.versions[b]);
                } else {
                    assert(after[a] == pm.versions[a]);
                    assert(after[b] == (m.version, m.version_data()));
                }
            }
        },
    }
}

/// Removing a version preserves distinctness.
pub proof fn lemma_pm_remove_wf(pm: PackageManifestView, v: VersionView)
    requires
        pm.wf(),
    ensures
        pm_remove_version(pm, v).wf(),
        pm_remove_version(pm, v).short_name() == pm.short_name(),
{
    lemma_find_version_index_spec(pm.versions, v);
    match find_version_index(pm.versions, v) {
        Some(i) => {
            let after = pm_remove_version(pm, v).versions;
            assert forall|a: int, b: int| 0 <= a < b < after.len() implies (
            #[trigger] after[a]).0 != (#[trigger] after[b]).0 by {
                let a0: int = if a < i {
                    a
                } else {
                    a + 1
                };
                let b0: int = if b < i {
                    b
                } else {
                    b + 1
                };
                assert(after[a] == pm.versions[a0]);
                assert(after[b] == pm.versions[b0]);
                assert(pm.versions[a0].0 != pm.versions[b0].0);
            }
        },
        None => {},
    }
}

impl PackageManifest {
    pub fn short_name(&self) -> (r: crate::codec::PackageShortName)
        ensures
            r@ == self@.short_name(),
    {
        crate::codec::PackageShortName {
            category: self.category.clone(),
            name: self.name.clone(),
        }
    }

    pub fn full_name(&self) -> (r: PackageFullName)
        ensures
            r@ == self@.full_name(),
    {
        PackageFullName {
            repository: self.repository.clone(),
            category: self.category.clone(),
            name: self.name.clone(),
        }
    }

    /// The greatest wrap date among the versions.
    pub fn latest_wrap_date(&self) -> (r: i64)
        requires
            self.versions@.len() > 0,
        ensures
            r as int == latest_wrap(self@.versions),
    {
        let ghost m = self@.versions;
        let mut best: i64 = self.versions[0].1.wrap_date;
        proof {
            assert(m.take(1) =~= seq![m[0]]);
            assert(latest_wrap(m.take(1)) == m[0].1.wrap_date);
        }
        let mut i: usize = 1;
        while i < self.versions.len()
            invariant
                1 <= i <= self.versions@.len(),
                m == self@.versions,
                m.len() == self.versions@.len(),
                best as int == latest_wrap(m.take(i as int)),
            decreases self.versions@.len() - i,
        {
            let w = self.versions[i].1.wrap_date;
            proof {
                assert(m.take(i as int + 1).drop_last() =~= m.take(i as int));
                assert(m.take(i as int + 1).last() == m[i as int]);
                assert(m[i as int].1.wrap_date == w as int);
            }
            if w > best {
                best = w;
            }
            i = i + 1;
        }
        proof {
            assert(m.take(m.len() as int) =~= m);
        }
        best
    }

    /// The first position of a version key, if present.
    pub fn find_version(&self, v: &Version) -> (r: Option<usize>)
        ensures
            r matches Some(i) ==> i < self.versions@.len() && find_version_index(
                self@.versions,
                v@,
            ) == Some(i as int),
            r is None ==> find_version_index(self@.versions, v@) is None,
    {
        let ghost m = self@.versions;
        let mut i: usize = 0;
        while i < self.versions.len()
            invariant
                0 <= i <= self.versions@.len(),
                m == self@.versions,
                forall|j: int| 0 <= j < i ==> (#[trigger] m[j]).0 != v@,
            decreases self.versions@.len() - i,
        {
            if self.versions[i].0.same_as(v) {
                proof {
                    lemma_find_version_index_spec(m, v@);
                    match find_version_index(m, v@) {
                        None => {
                            assert(m[i as int].0 != v@);
                        },
                        Some(k) => {
                            if k < i {
                                assert(m[k].0 != v@);
                            }
                            if k > i {
                                assert(m[i as int].0 != v@);
                            }
                        },
                    }
                }
                return Some(i);
            }
            i = i + 1;
        }
        proof {
            lemma_find_version_index_spec(m, v@);
            match find_version_index(m, v@) {
                None => {},
                Some(k) => {
                    assert(m[k].0 != v@);
                },
            }
        }
        None
    }

    /// The aggregation step on this record.
    pub fn upsert(&mut self, m: &Manifest)
        ensures
            final(self)@ == pm_upsert(old(self)@, m@),
    {
        if self.versions.len() > 0 {
            let lw = self.latest_wrap_date();
            if lw < m.wrap_date {
                self.metadata = m.metadata.clone();
            }
        }
        let vd = m.version_data();
        let entry = (m.version.clone(), vd);
        let ghost mv = self@.versions;
        match self.find_version(&m.version) {
            Some(i) => {
                self.versions.set(i, entry);
                proof {
                    assert(self@.versions =~= mv.update(i as int, (m.version@, m@.version_data())));
                }
            },
            None => {
                self.versions.push(entry);
                proof {
                    assert(self@.versions =~= mv.push((m.version@, m@.version_data())));
                }
            },
        }
    }

    /// Removes one version key, if present.
    pub fn remove_version(&mut self, v: &Version)
        ensures
            final(self)@ == pm_remove_version(old(self)@, v@),
    {
        let ghost mv = self@.versions;
        match self.find_version(v) {
            Some(i) => {
                self.versions.remove(i);
                proof {
                    assert(self@.versions =~= mv.remove(i as int));
                }
            },
            None => {},
        }
    }
}

} // verus!
