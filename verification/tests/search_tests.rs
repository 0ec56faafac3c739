use nest_server::cache::{ArchiveData, ArchiveOutcome, NPFCacheEntry};
use nest_server::codec::PackageID;
use nest_server::manager::NPFManager;
use nest_server::manifest::{Dependency, Kind, Manifest, Metadata};
use nest_server::version::Version;

fn manifest(name: &str, version: &str, kind: Kind) -> Manifest {
    Manifest {
        name: name.to_string(),
        category: "sys-lib".to_string(),
        version: Version::parse(version).unwrap(),
        slot: "0".to_string(),
        kind,
        wrap_date: 1,
        dependencies: Vec::<Dependency>::new(),
        metadata: Metadata { description: String::new(), tags: Vec::<String>::new() },
    }
}

fn filled_entry(paths: &[&str]) -> NPFCacheEntry {
    let id = PackageID {
        repository: "example".to_string(),
        category: "sys-lib".to_string(),
        name: "libc".to_string(),
        version: Version::parse("1.0.0").unwrap(),
    };
    let mut entry = NPFCacheEntry::from(&id);
    let data = ArchiveData {
        manifest: manifest("libc", "1.0.0", Kind::Effective),
        payload: Some(paths.iter().map(|p| p.to_string()).collect()),
    };
    entry.fill_with(&data, 7).expect("fill");
    entry
}

#[test]
fn contains_exact_matches_only_whole_file_names() {
    let entry = filled_entry(&[
        "./usr/include/stdio.h",
        "./usr/include/stdio.h.gz",
        "./usr/share/stdio.h/readme",
    ]);
    let hits = entry.contains("stdio.h", true);
    // Only paths whose final component is exactly the query.
    assert_eq!(hits, vec!["/usr/include/stdio.h".to_string()]);
}

#[test]
fn contains_substring_matches_within_file_names() {
    let entry = filled_entry(&["./usr/include/stdio.h", "./usr/lib/libstdfoo.so", "./etc/config"]);
    let hits = entry.contains("std", false);
    assert_eq!(
        hits,
        vec!["/usr/include/stdio.h".to_string(), "/usr/lib/libstdfoo.so".to_string()],
    );
}

#[test]
fn contains_matches_file_name_not_directories() {
    // The directory part never participates in matching.
    let entry = filled_entry(&["./usr/std/other.txt"]);
    assert!(entry.contains("std", false).is_empty());
}

#[test]
fn fill_normalizes_paths() {
    let entry = filled_entry(&["./usr/./lib//libc.so"]);
    let files = entry.filesmap().expect("filled").expect("effective");
    assert_eq!(files, vec!["/usr/lib/libc.so".to_string()]);
}

#[test]
fn fresh_fill_is_never_dirty_and_touching_marks_dirty() {
    let entry = filled_entry(&["./a"]);
    // Filled at time 7: an archive not newer than that is clean.
    assert!(!entry.is_dirty(Some(7)));
    assert!(!entry.is_dirty(Some(3)));
    // A strictly newer archive modification time marks it dirty.
    assert!(entry.is_dirty(Some(8)));
    // A missing archive is never dirty.
    assert!(!entry.is_dirty(None));
}

#[test]
fn purge_removes_the_entry() {
    let mut entry = filled_entry(&["./a"]);
    assert!(entry.is_present());
    entry.purge();
    assert!(!entry.is_present());
    assert!(entry.contains("a", false).is_empty());
}

fn two_version_manager(both_have_conf: bool) -> NPFManager {
    let mut m = NPFManager::new("example".to_string());
    let second_paths: Vec<String> = if both_have_conf {
        vec!["./etc/foo.conf".to_string()]
    } else {
        vec!["./etc/other".to_string()]
    };
    m.add(
        "sys-lib/foo/foo-1.0.0.nest",
        &ArchiveOutcome::Parsed(ArchiveData {
            manifest: manifest("foo", "1.0.0", Kind::Effective),
            payload: Some(vec!["./etc/foo.conf".to_string()]),
        }),
        1,
    )
    .expect("add");
    m.add(
        "sys-lib/foo/foo-2.0.0.nest",
        &ArchiveOutcome::Parsed(ArchiveData {
            manifest: manifest("foo", "2.0.0", Kind::Effective),
            payload: Some(second_paths),
        }),
        2,
    )
    .expect("add");
    m
}

#[test]
fn browse_flags_path_missing_from_one_version() {
    let m = two_version_manager(false);
    let results = m.browse_packages_for_file("foo.conf", false);
    assert_eq!(results.len(), 1);
    assert_eq!(results[0].path, "/etc/foo.conf");
    assert_eq!(results[0].name.name, "foo");
    assert!(!results[0].all_versions);
}

#[test]
fn browse_flags_path_in_all_versions() {
    let m = two_version_manager(true);
    let results = m.browse_packages_for_file("foo.conf", false);
    assert_eq!(results.len(), 1);
    assert_eq!(results[0].path, "/etc/foo.conf");
    assert!(results[0].all_versions);
}

#[test]
fn browse_exact_match_uses_whole_file_name() {
    let m = two_version_manager(true);
    assert_eq!(m.browse_packages_for_file("foo.conf", true).len(), 1);
    assert!(m.browse_packages_for_file("foo", true).is_empty());
    assert_eq!(m.browse_packages_for_file("foo", false).len(), 1);
}
