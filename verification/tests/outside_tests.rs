use nest_server::auth::AuthToken;
use nest_server::filename::{FileName, FileNameError};
use nest_server::outside::{archive_hash_hex, decode_filesmap, encode_filesmap, gen_tmp_filename};
use nest_server::package::Package;

#[test]
fn tmp_filename_has_prefix_and_random_suffix() {
    let a = gen_tmp_filename();
    assert_eq!(a.len(), "/var/tmp/nest-server/nest_".len() + 10);
    assert!(a.starts_with("/var/tmp/nest-server/nest_"));
    assert!(a["/var/tmp/nest-server/nest_".len()..].chars().all(|c| c.is_ascii_alphanumeric()));
}

#[test]
fn filesmap_json_roundtrip() {
    let files = vec!["/usr/lib/libc.so".to_string(), "/usr/include/stdio.h".to_string()];
    let text = encode_filesmap(&files).expect("encode");
    assert_eq!(text, "[\"/usr/lib/libc.so\",\"/usr/include/stdio.h\"]");
    let back = decode_filesmap(&text).expect("decode");
    assert_eq!(back, files);
}

#[test]
fn filesmap_decode_rejects_other_json() {
    assert!(decode_filesmap("{\"not\": \"a list\"}").is_err());
    assert!(decode_filesmap("not json at all").is_err());
}

#[test]
fn archive_hash_matches_known_digest() {
    // The SHA-256 digest of the empty input, upper-case hexadecimal.
    let empty: Vec<u8> = Vec::new();
    assert_eq!(
        archive_hash_hex(&empty),
        "E3B0C44298FC1C149AFBF4C8996FB92427AE41E4649B934CA495991B7852B855",
    );
    // And of "abc" (the classic test vector).
    let abc = vec![0x61u8, 0x62, 0x63];
    assert_eq!(
        archive_hash_hex(&abc),
        "BA7816BF8F01CFEA414140DE5DAE2223B00361A396177A9CB410FF61F20015AD",
    );
}

#[test]
fn file_name_accepts_single_components() {
    let f = FileName::parse("libc-2.27.0.nest").expect("plain file name");
    assert_eq!(f.value(), "libc-2.27.0.nest");
    // Trailing separators and `.` segments reduce to one component, as a
    // path parser sees them; the text is kept verbatim.
    assert_eq!(FileName::parse("name/").expect("trailing slash").value(), "name/");
    assert_eq!(FileName::parse("name/.").expect("trailing dot segment").value(), "name/.");
}

#[test]
fn file_name_rejects_paths() {
    assert_eq!(FileName::parse("a/b").unwrap_err(), FileNameError::InvalidPath);
    assert_eq!(FileName::parse("").unwrap_err(), FileNameError::InvalidPath);
    assert_eq!(FileName::parse(".").unwrap_err(), FileNameError::InvalidPath);
    assert_eq!(FileName::parse("..").unwrap_err(), FileNameError::InvalidPath);
    assert_eq!(FileName::parse("../").unwrap_err(), FileNameError::InvalidPath);
    assert_eq!(FileName::parse("/name").unwrap_err(), FileNameError::InvalidPath);
    assert_eq!(FileName::parse("./name").unwrap_err(), FileNameError::InvalidPath);
    assert_eq!(FileName::parse("a/..").unwrap_err(), FileNameError::InvalidPath);
}

#[test]
fn auth_token_checks_equality() {
    assert!(AuthToken::check("secret", "secret").is_some());
    assert!(AuthToken::check("secret", "other").is_none());
    assert!(AuthToken::check("", "").is_some());
}

#[test]
fn package_new_keeps_fields() {
    let p = Package::new("libc", "sys-lib");
    assert_eq!(p.name, "libc");
    assert_eq!(p.category, "sys-lib");
}
