use nest_server::codec::{encode_path, parse_npf_path, PackageID};
use nest_server::version::Version;

fn repo() -> String {
    "example".to_string()
}

#[test]
fn version_parse_plain() {
    let v = Version::parse("2.27.0").expect("valid version");
    assert_eq!(v.major, 2);
    assert_eq!(v.minor, 27);
    assert_eq!(v.patch, 0);
    assert_eq!(v.pre, "");
    assert_eq!(v.build, "");
    assert_eq!(v.to_text(), "2.27.0");
}

#[test]
fn version_parse_pre_and_build() {
    let v = Version::parse("1.2.3-rc1+build5").expect("valid version");
    assert_eq!(v.major, 1);
    assert_eq!(v.minor, 2);
    assert_eq!(v.patch, 3);
    assert_eq!(v.pre, "rc1");
    assert_eq!(v.build, "build5");
    assert_eq!(v.to_text(), "1.2.3-rc1+build5");
}

#[test]
fn version_parse_rejects() {
    assert!(Version::parse("").is_none());
    assert!(Version::parse("1.2").is_none());
    assert!(Version::parse("1.2.3.4").is_none());
    assert!(Version::parse("01.2.3").is_none());
    assert!(Version::parse("1.2.3-").is_none());
    assert!(Version::parse("1.2.3+").is_none());
    assert!(Version::parse("a.b.c").is_none());
}

#[test]
fn version_component_range() {
    // The largest value a component can hold, and one past it.
    let v = Version::parse("18446744073709551615.0.0").expect("fits in range");
    assert_eq!(v.major, u64::MAX);
    assert!(Version::parse("18446744073709551616.0.0").is_none());
}

#[test]
fn version_roundtrip_examples() {
    for text in ["0.0.1", "4.15.3", "10.0.0-alpha-2", "1.0.0+x.y", "5.0.1-z+q-r"] {
        let v = Version::parse(text).expect("valid version");
        assert_eq!(v.to_text(), text);
    }
}

#[test]
fn decode_simple_path() {
    let id = parse_npf_path("sys-lib/libc/libc-2.27.0.nest", &repo()).expect("valid path");
    assert_eq!(id.repository, "example");
    assert_eq!(id.category, "sys-lib");
    assert_eq!(id.name, "libc");
    assert_eq!(id.version.to_text(), "2.27.0");
}

#[test]
fn decode_dashed_name() {
    // The version starts at the first dash-segment containing a dot.
    let id = parse_npf_path("kernel/linux-doc/linux-doc-5.0.1.nest", &repo()).expect("valid path");
    assert_eq!(id.name, "linux-doc");
    assert_eq!(id.version.to_text(), "5.0.1");
}

#[test]
fn decode_rejects_mismatched_directory() {
    // The file name's package part must equal the directory name.
    assert!(parse_npf_path("kernel/linux/linux-doc-5.0.1.nest", &repo()).is_err());
    assert!(parse_npf_path("kernel/linux/other-5.0.1.nest", &repo()).is_err());
}

#[test]
fn decode_rejects_malformed() {
    assert!(parse_npf_path("libc-2.27.0.nest", &repo()).is_err());
    assert!(parse_npf_path("sys-lib/libc/libc.nest", &repo()).is_err());
    assert!(parse_npf_path("sys-lib/libc/libc-notaversion.nest", &repo()).is_err());
    assert!(parse_npf_path("sys-lib/Libc/Libc-1.0.0.nest", &repo()).is_err());
}

#[test]
fn encode_then_decode() {
    let id = PackageID {
        repository: "example".to_string(),
        category: "sys-lib".to_string(),
        name: "libc".to_string(),
        version: Version::parse("2.27.0").unwrap(),
    };
    let path = encode_path(&id);
    assert_eq!(path, "sys-lib/libc/libc-2.27.0.nest");
    let back = parse_npf_path(&path, &repo()).expect("roundtrip");
    assert!(back.same_as(&id));
}

#[test]
fn encode_then_decode_dashed() {
    let id = PackageID {
        repository: "example".to_string(),
        category: "kernel".to_string(),
        name: "linux-doc".to_string(),
        version: Version::parse("5.0.1-z").unwrap(),
    };
    let path = encode_path(&id);
    assert_eq!(path, "kernel/linux-doc/linux-doc-5.0.1-z.nest");
    let back = parse_npf_path(&path, &repo()).expect("roundtrip");
    assert!(back.same_as(&id));
}
