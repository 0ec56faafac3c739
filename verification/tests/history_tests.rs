use nest_server::history::History;
use nest_server::manifest::{Dependency, Kind, Metadata, PackageManifest, VersionData};
use nest_server::version::Version;

fn aggregate(name: &str, wrap_date: i64) -> PackageManifest {
    PackageManifest {
        name: name.to_string(),
        category: "sys-lib".to_string(),
        repository: "example".to_string(),
        metadata: Metadata { description: String::new(), tags: Vec::<String>::new() },
        versions: vec![(
            Version::parse("1.0.0").unwrap(),
            VersionData {
                slot: "0".to_string(),
                kind: Kind::Effective,
                wrap_date,
                dependencies: Vec::<Dependency>::new(),
            },
        )],
    }
}

#[test]
fn history_keeps_at_most_the_bound_most_recent_first() {
    let mut h = History::new();
    // Twenty distinct packages with increasing dates, a bound of fifteen.
    let mut i: i64 = 0;
    while i < 20 {
        h.add_manifest(aggregate(&format!("pkg{}", i), 100 + i));
        i += 1;
    }
    let entries = h.entries();
    assert_eq!(entries.len(), 15);
    // Most recently updated first, dates descending.
    assert_eq!(entries[0].manifest().name, "pkg19");
    assert_eq!(entries[14].manifest().name, "pkg5");
    let mut k = 1;
    while k < entries.len() {
        assert!(entries[k - 1].date() >= entries[k].date());
        k += 1;
    }
}

#[test]
fn history_replaces_same_package() {
    let mut h = History::new();
    h.add_manifest(aggregate("libc", 10));
    h.add_manifest(aggregate("linux", 11));
    h.add_manifest(aggregate("libc", 12));
    let entries = h.entries();
    assert_eq!(entries.len(), 2);
    assert_eq!(entries[0].manifest().name, "libc");
    assert_eq!(entries[0].date(), 12);
    assert_eq!(entries[1].manifest().name, "linux");
}

#[test]
fn history_ignores_versionless_aggregate() {
    let mut h = History::new();
    let mut pm = aggregate("libc", 10);
    pm.versions = Vec::new();
    h.add_manifest(pm);
    assert!(h.entries().is_empty());
}

#[test]
fn history_clear_forgets_everything() {
    let mut h = History::new();
    h.add_manifest(aggregate("libc", 10));
    assert_eq!(h.entries().len(), 1);
    h.clear();
    assert!(h.entries().is_empty());
}
