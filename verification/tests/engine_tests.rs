use nest_server::cache::{ArchiveData, ArchiveOutcome};
use nest_server::codec::{PackageID, PackageShortName};
use nest_server::errors::IndexError;
use nest_server::manager::{DiskArchive, NPFManager};
use nest_server::manifest::{Dependency, Kind, Manifest, Metadata};
use nest_server::notify::{DiskFile, FsEvent};
use nest_server::version::Version;

fn manifest(name: &str, category: &str, version: &str, kind: Kind, wrap_date: i64) -> Manifest {
    Manifest {
        name: name.to_string(),
        category: category.to_string(),
        version: Version::parse(version).unwrap(),
        slot: "0".to_string(),
        kind,
        wrap_date,
        dependencies: Vec::<Dependency>::new(),
        metadata: Metadata {
            description: format!("{} package", name),
            tags: vec![name.to_string()],
        },
    }
}

fn archive(name: &str, category: &str, version: &str, paths: &[&str], wrap_date: i64) -> ArchiveOutcome {
    ArchiveOutcome::Parsed(ArchiveData {
        manifest: manifest(name, category, version, Kind::Effective, wrap_date),
        payload: Some(paths.iter().map(|p| p.to_string()).collect()),
    })
}

fn virtual_archive(name: &str, category: &str, version: &str, wrap_date: i64) -> ArchiveOutcome {
    ArchiveOutcome::Parsed(ArchiveData {
        manifest: manifest(name, category, version, Kind::Virtual, wrap_date),
        payload: None,
    })
}

fn short(category: &str, name: &str) -> PackageShortName {
    PackageShortName { category: category.to_string(), name: name.to_string() }
}

fn id(category: &str, name: &str, version: &str) -> PackageID {
    PackageID {
        repository: "example".to_string(),
        category: category.to_string(),
        name: name.to_string(),
        version: Version::parse(version).unwrap(),
    }
}

fn manager() -> NPFManager {
    NPFManager::new("example".to_string())
}

#[test]
fn add_then_content_roundtrip() {
    let mut m = manager();
    let outcome = archive(
        "libc",
        "sys-lib",
        "2.27.0",
        &["./usr/lib/libc.so", "./usr/include/stdio.h"],
        100,
    );
    m.add("sys-lib/libc/libc-2.27.0.nest", &outcome, 100).expect("add");
    let content = m.content_of(&id("sys-lib", "libc", "2.27.0")).expect("known id");
    let files = content.expect("effective package");
    assert_eq!(files, vec!["/usr/lib/libc.so".to_string(), "/usr/include/stdio.h".to_string()]);
}

#[test]
fn virtual_package_has_no_content() {
    let mut m = manager();
    let outcome = virtual_archive("essentials", "virtual", "0.0.1", 5);
    m.add("virtual/essentials/essentials-0.0.1.nest", &outcome, 5).expect("add");
    let content = m.content_of(&id("virtual", "essentials", "0.0.1")).expect("known id");
    assert!(content.is_none());
}

#[test]
fn content_of_unknown_is_not_found() {
    let m = manager();
    match m.content_of(&id("foo", "bar", "1.0.1")) {
        Err(IndexError::NotFound(_)) => (),
        _ => panic!("expected a not-found error"),
    }
}

#[test]
fn add_rejects_identity_mismatch() {
    let mut m = manager();
    // The archive's manifest declares a different version than its location.
    let outcome = archive("libc", "sys-lib", "2.0.0", &[], 1);
    match m.add("sys-lib/libc/libc-2.27.0.nest", &outcome, 1) {
        Err(IndexError::PackageIdMismatch(_)) => (),
        _ => panic!("expected an identity mismatch"),
    }
    assert!(m.manifest_of(&short("sys-lib", "libc")).is_none());
}

#[test]
fn add_rejects_effective_without_payload() {
    let mut m = manager();
    let outcome = ArchiveOutcome::Parsed(ArchiveData {
        manifest: manifest("libc", "sys-lib", "2.27.0", Kind::Effective, 1),
        payload: None,
    });
    match m.add("sys-lib/libc/libc-2.27.0.nest", &outcome, 1) {
        Err(IndexError::ArchiveFormat(_)) => (),
        _ => panic!("expected an archive format error"),
    }
}

#[test]
fn add_rejects_bad_path() {
    let mut m = manager();
    let outcome = archive("libc", "sys-lib", "2.27.0", &[], 1);
    match m.add("nonsense", &outcome, 1) {
        Err(IndexError::PathParse(_)) => (),
        _ => panic!("expected a path parse error"),
    }
}

#[test]
fn add_then_remove_single_version() {
    let mut m = manager();
    let outcome = archive("libc", "sys-lib", "2.27.0", &["./a"], 1);
    m.add("sys-lib/libc/libc-2.27.0.nest", &outcome, 1).expect("add");
    assert!(m.manifest_of(&short("sys-lib", "libc")).is_some());
    m.remove("sys-lib/libc/libc-2.27.0.nest").expect("remove");
    assert!(m.manifest_of(&short("sys-lib", "libc")).is_none());
    assert_eq!(m.manifests_count(), 0);
}

#[test]
fn remove_keeps_other_versions() {
    let mut m = manager();
    m.add("sys-lib/libc/libc-1.0.0.nest", &archive("libc", "sys-lib", "1.0.0", &["./a"], 1), 1)
        .expect("add");
    m.add("sys-lib/libc/libc-2.0.0.nest", &archive("libc", "sys-lib", "2.0.0", &["./a"], 2), 2)
        .expect("add");
    m.remove("sys-lib/libc/libc-1.0.0.nest").expect("remove");
    let pm = m.manifest_of(&short("sys-lib", "libc")).expect("still indexed");
    assert_eq!(pm.versions.len(), 1);
    assert!(pm.versions[0].0.same_as(&Version::parse("2.0.0").unwrap()));
}

#[test]
fn metadata_follows_newest_wrap_date() {
    let mut m = manager();
    let mut newer = manifest("libc", "sys-lib", "2.0.0", Kind::Effective, 20);
    newer.metadata.description = "newer description".to_string();
    let mut older = manifest("libc", "sys-lib", "1.0.0", Kind::Effective, 10);
    older.metadata.description = "older description".to_string();
    m.add(
        "sys-lib/libc/libc-2.0.0.nest",
        &ArchiveOutcome::Parsed(ArchiveData { manifest: newer, payload: Some(vec![]) }),
        20,
    )
    .expect("add");
    m.add(
        "sys-lib/libc/libc-1.0.0.nest",
        &ArchiveOutcome::Parsed(ArchiveData { manifest: older, payload: Some(vec![]) }),
        21,
    )
    .expect("add");
    // The aggregate keeps the metadata of the most recently wrapped version.
    let pm = m.manifest_of(&short("sys-lib", "libc")).expect("indexed");
    assert_eq!(pm.metadata.description, "newer description");
    assert_eq!(pm.versions.len(), 2);
}

#[test]
fn flush_ignores_other_extensions() {
    let mut m = manager();
    let outcome = archive("libc", "sys-lib", "2.27.0", &[], 1);
    m.flush("sys-lib/libc/libc-2.27.0.txt", Some(&outcome), 1).expect("ignored");
    assert_eq!(m.manifests_count(), 0);
}

#[test]
fn flush_absent_path_removes() {
    let mut m = manager();
    let outcome = archive("libc", "sys-lib", "2.27.0", &["./a"], 1);
    m.flush("sys-lib/libc/libc-2.27.0.nest", Some(&outcome), 1).expect("add");
    assert_eq!(m.manifests_count(), 1);
    m.flush("sys-lib/libc/libc-2.27.0.nest", None, 2).expect("remove");
    assert_eq!(m.manifests_count(), 0);
}

fn disk_three_plus_corrupt() -> Vec<DiskArchive> {
    vec![
        DiskArchive {
            path: "kernel/linux/linux-4.15.3.nest".to_string(),
            mtime: 10,
            outcome: archive("linux", "kernel", "4.15.3", &["./boot/vmlinuz"], 10),
        },
        DiskArchive {
            path: "sys-lib/libc/libc-2.27.0.nest".to_string(),
            mtime: 11,
            outcome: archive("libc", "sys-lib", "2.27.0", &["./usr/lib/libc.so"], 11),
        },
        DiskArchive {
            path: "sys-lib/broken/broken-1.0.0.nest".to_string(),
            mtime: 12,
            outcome: ArchiveOutcome::Unreadable("truncated".to_string()),
        },
        DiskArchive {
            path: "virtual/essentials/essentials-0.0.1.nest".to_string(),
            mtime: 13,
            outcome: virtual_archive("essentials", "virtual", "0.0.1", 13),
        },
    ]
}

#[test]
fn resync_contains_failures() {
    let mut m = manager();
    m.resync(&disk_three_plus_corrupt(), 20).expect("resync");
    // The three valid packages are indexed; the corrupted one is absent.
    assert!(m.manifest_of(&short("kernel", "linux")).is_some());
    assert!(m.manifest_of(&short("sys-lib", "libc")).is_some());
    assert!(m.manifest_of(&short("virtual", "essentials")).is_some());
    assert!(m.manifest_of(&short("sys-lib", "broken")).is_none());
    assert_eq!(m.manifests_count(), 3);
}

#[test]
fn resync_twice_is_idempotent() {
    let mut m = manager();
    let disk = disk_three_plus_corrupt();
    m.resync(&disk, 20).expect("first resync");
    let count1 = m.manifests_count();
    let names1: Vec<String> = m.manifests().iter().map(|pm| pm.name.clone()).collect();
    let history1: Vec<String> =
        m.history().entries().iter().map(|e| e.manifest().name.clone()).collect();
    m.resync(&disk, 30).expect("second resync");
    let names2: Vec<String> = m.manifests().iter().map(|pm| pm.name.clone()).collect();
    let history2: Vec<String> =
        m.history().entries().iter().map(|e| e.manifest().name.clone()).collect();
    assert_eq!(m.manifests_count(), count1);
    assert_eq!(names1, names2);
    assert_eq!(history1, history2);
}

#[test]
fn handle_rename_event_moves_archive() {
    let mut m = manager();
    let outcome = archive("libc", "sys-lib", "2.27.0", &["./a"], 1);
    m.flush("sys-lib/libc/libc-2.27.0.nest", Some(&outcome), 1).expect("add");
    let outcome2 = archive("libc", "sys-lib", "2.28.0", &["./a"], 2);
    let ev = FsEvent::Rename(
        DiskFile { path: "sys-lib/libc/libc-2.27.0.nest".to_string(), on_disk: None },
        DiskFile {
            path: "sys-lib/libc/libc-2.28.0.nest".to_string(),
            on_disk: Some(outcome2),
        },
    );
    m.handle_event(&ev, 2).expect("rename handled");
    let pm = m.manifest_of(&short("sys-lib", "libc")).expect("indexed");
    assert_eq!(pm.versions.len(), 1);
    assert!(pm.versions[0].0.same_as(&Version::parse("2.28.0").unwrap()));
}

#[test]
fn rename_with_two_failures_surfaces_the_first() {
    let mut m = manager();
    // The old path names an unreadable archive; the new path does not
    // follow the naming convention.  Both flushes fail, and the first
    // path's error is the one surfaced.
    let ev = FsEvent::Rename(
        DiskFile {
            path: "sys-lib/libc/libc-1.0.0.nest".to_string(),
            on_disk: Some(ArchiveOutcome::Unreadable("truncated".to_string())),
        },
        DiskFile {
            path: "bad.nest".to_string(),
            on_disk: Some(archive("libc", "sys-lib", "1.0.0", &[], 1)),
        },
    );
    match m.handle_event(&ev, 1) {
        Err(IndexError::ArchiveFormat(_)) => (),
        _ => panic!("expected the first path's error"),
    }
}

#[test]
fn search_metadata_by_name_substring() {
    let mut m = manager();
    m.add("sys-lib/libc/libc-2.27.0.nest", &archive("libc", "sys-lib", "2.27.0", &[], 1), 1)
        .expect("add");
    m.add("kernel/linux/linux-4.15.3.nest", &archive("linux", "kernel", "4.15.3", &[], 2), 2)
        .expect("add");
    let hits = m.do_search_metadata("li", "name", false);
    assert_eq!(hits.len(), 2);
    let exact = m.do_search_metadata("libc", "name", true);
    assert_eq!(exact.len(), 1);
    assert_eq!(exact[0].name, "libc");
    let none = m.do_search_metadata("foobar", "name", false);
    assert!(none.is_empty());
    let bad_key = m.do_search_metadata("libc", "nonsense", false);
    assert!(bad_key.is_empty());
}

#[test]
fn resync_refills_dirty_and_trusts_clean_entries() {
    let mut m = manager();
    let path = "sys-lib/libc/libc-1.0.0.nest";
    let mut disk = vec![DiskArchive {
        path: path.to_string(),
        mtime: 10,
        outcome: archive("libc", "sys-lib", "1.0.0", &["./a"], 10),
    }];
    m.resync(&disk, 20).expect("first resync");

    // The archive is rewritten in place: newer modification time, new
    // description.  The stale entry is refilled from the archive.
    let mut rewritten = archive("libc", "sys-lib", "1.0.0", &["./a"], 10);
    if let ArchiveOutcome::Parsed(ref mut data) = rewritten {
        data.manifest.metadata.description = "rewritten".to_string();
    }
    disk[0] = DiskArchive { path: path.to_string(), mtime: 30, outcome: rewritten };
    m.resync(&disk, 40).expect("second resync");
    let pm = m.manifest_of(&short("sys-lib", "libc")).expect("indexed");
    assert_eq!(pm.metadata.description, "rewritten");

    // Without a newer modification time the entry is clean, so the cached
    // manifest is used and the archive is not consulted.
    let mut unseen = archive("libc", "sys-lib", "1.0.0", &["./a"], 10);
    if let ArchiveOutcome::Parsed(ref mut data) = unseen {
        data.manifest.metadata.description = "never read".to_string();
    }
    disk[0] = DiskArchive { path: path.to_string(), mtime: 30, outcome: unseen };
    m.resync(&disk, 50).expect("third resync");
    let pm = m.manifest_of(&short("sys-lib", "libc")).expect("indexed");
    assert_eq!(pm.metadata.description, "rewritten");
}
