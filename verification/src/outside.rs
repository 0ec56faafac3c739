//! The calls into outside crates that the index engine makes, each behind a
//! trusted wrapper, together with the verified functions built on them:
//! random temporary names, JSON framing of content listings, and archive
//! digests.

use vstd::prelude::*;

use crate::strutil::{append_str, digit_char, is_digit};

verus! {

// ---------------------------------------------------------------------------
// Random names (rand)
// ---------------------------------------------------------------------------

#[verifier::external_type_specification]
#[verifier::external_body]
pub struct ExThreadRng(rand::rngs::ThreadRng);

/// Relies on rand::rng: a handle to the thread-local generator.  Nothing is
/// promised of the values it will produce.  The first use on a thread
/// panics if the operating system cannot supply entropy — environmental,
/// like an allocation failure, not dependent on any input.
#[verifier::external_body]
fn fresh_rng() -> rand::rngs::ThreadRng {
    rand::rng()
}

/// An ASCII letter or digit.
pub open spec fn is_ascii_alnum(c: char) -> bool {
    ||| 97 <= c as u32 <= 122
    ||| 65 <= c as u32 <= 90
    ||| is_digit(c)
}

/// Relies on rand's Alphanumeric distribution via SampleString: exactly
/// `len` characters, each drawn from a-z, A-Z and 0-9.  Which characters
/// come out is random and nothing more is promised.
#[verifier::external_body]
fn sample_alphanumeric(rng: &mut rand::rngs::ThreadRng, len: usize) -> (r: String)
    ensures
        r@.len() == len as nat,
        forall|i: int| 0 <= i < r@.len() ==> is_ascii_alnum(#[trigger] r@[i]),
{
    rand::distr::SampleString::sample_string(&rand::distr::Alphanumeric, rng, len)
}

/// The fixed directory and prefix of temporary upload files.
pub open spec fn tmp_prefix() -> Seq<char> {
    seq![
        '/',
        'v',
        'a',
        'r',
        '/',
        't',
        'm',
        'p',
        '/',
        'n',
        'e',
        's',
        't',
        '-',
        's',
        'e',
        'r',
        'v',
        'e',
        'r',
        '/',
        'n',
        'e',
        's',
        't',
        '_',
    ]
}

/// A fresh temporary file location: the fixed prefix followed by ten random
/// alphanumeric characters.
pub fn gen_tmp_filename() -> (r: String)
    ensures
        r@.len() == tmp_prefix().len() + 10,
        r@.subrange(0, tmp_prefix().len() as int) == tmp_prefix(),
        forall|i: int|
            tmp_prefix().len() <= i < r@.len() ==> is_ascii_alnum(#[trigger] r@[i]),
{
    let mut rng = fresh_rng();
    let suffix = sample_alphanumeric(&mut rng, 10);
    let mut r = String::new();
    r.push('/');
    r.push('v');
    r.push('a');
    r.push('r');
    r.push('/');
    r.push('t');
    r.push('m');
    r.push('p');
    r.push('/');
    r.push('n');
    r.push('e');
    r.push('s');
    r.push('t');
    r.push('-');
    r.push('s');
    r.push('e');
    r.push('r');
    r.push('v');
    r.push('e');
    r.push('r');
    r.push('/');
    r.push('n');
    r.push('e');
    r.push('s');
    r.push('t');
    r.push('_');
    proof {
        assert(r@ =~= tmp_prefix());
    }
    append_str(&mut r, &suffix);
    proof {
        assert(r@.subrange(0, tmp_prefix().len() as int) =~= tmp_prefix());
    }
    r
}

// ---------------------------------------------------------------------------
// JSON framing of content listings (serde_json)
// ---------------------------------------------------------------------------

/// What serde_json::to_string yields for a vector of path strings.
pub uninterp spec fn json_paths_of(files: Seq<Seq<char>>) -> Seq<char>;

/// What serde_json::from_str yields on a text, when it parses as a vector
/// of path strings.
pub uninterp spec fn json_parsed_paths(s: Seq<char>) -> Option<Seq<Seq<char>>>;

/// Relies on serde_json::to_string: the JSON text of a vector of strings,
/// a function of the values alone, which from_str parses back to the same
/// vector (JSON is self-describing and strings round-trip).  It succeeds:
/// serialization fails only when a Serialize implementation fails or a map
/// has non-string keys, and neither holds for a vector of strings.
#[verifier::external_body]
fn json_encode_paths(files: &Vec<String>) -> (r: Result<String, ()>)
    ensures
        r is Ok,
        r matches Ok(s) ==> s@ == json_paths_of(files.deep_view()) && json_parsed_paths(s@)
            == Some(files.deep_view()),
{
    match serde_json::to_string(files) {
        Ok(s) => Ok(s),
        Err(_) => Err(()),
    }
}

/// Frames a content listing as JSON for the durable cache file; this
/// always succeeds, and the text parses back to exactly the listing.
pub fn encode_filesmap(files: &Vec<String>) -> (r: Result<String, ()>)
    ensures
        r is Ok,
        r matches Ok(s) ==> s@ == json_paths_of(files.deep_view()) && json_parsed_paths(s@)
            == Some(files.deep_view()),
{
    json_encode_paths(files)
}

/// Relies on serde_json::from_str: parses a JSON text as a vector of
/// strings, deterministically in the text.
#[verifier::external_body]
fn json_decode_paths(s: &str) -> (r: Result<Vec<String>, ()>)
    ensures
        r matches Ok(v) ==> json_parsed_paths(s@) == Some(v.deep_view()),
        r is Err ==> json_parsed_paths(s@) is None,
{
    match serde_json::from_str::<Vec<String>>(s) {
        Ok(v) => Ok(v),
        Err(_) => Err(()),
    }
}

/// Reads a content listing back from its JSON framing; fails exactly on
/// texts that do not parse as a listing.
pub fn decode_filesmap(s: &str) -> (r: Result<Vec<String>, ()>)
    ensures
        r matches Ok(v) ==> json_parsed_paths(s@) == Some(v.deep_view()),
        r is Err <==> json_parsed_paths(s@) is None,
{
    json_decode_paths(s)
}

// ---------------------------------------------------------------------------
// Archive digests (sha2, data-encoding)
// ---------------------------------------------------------------------------

/// What sha2 computes: the SHA-256 digest of the bytes, a function of the
/// input alone.
pub uninterp spec fn sha256_of(bytes: Seq<u8>) -> Seq<u8>;

/// Relies on sha2::Sha256::digest: the 32-byte SHA-256 digest of the input.
#[verifier::external_body]
fn sha256_digest(bytes: &Vec<u8>) -> (r: Vec<u8>)
    ensures
        r@ == sha256_of(bytes@),
        r@.len() == 32,
{
    <sha2::Sha256 as sha2::Digest>::digest(bytes.as_slice()).to_vec()
}

/// The upper-case hexadecimal digit of a value below sixteen.
pub open spec fn hex_digit_upper(d: nat) -> char {
    if d < 10 {
        digit_char(d)
    } else {
        ((65 + (d - 10)) as u32) as char
    }
}

/// The upper-case hexadecimal text of a byte string: two digits per byte,
/// most significant first.
pub open spec fn hex_upper_of(bytes: Seq<u8>) -> Seq<char>
    decreases bytes.len(),
{
    if bytes.len() == 0 {
        Seq::empty()
    } else {
        hex_upper_of(bytes.drop_last()) + seq![
            hex_digit_upper((bytes.last() / 16) as nat),
            hex_digit_upper((bytes.last() % 16) as nat),
        ]
    }
}

/// Relies on data_encoding::HEXUPPER.encode: RFC 4648 base16 — two
/// upper-case hexadecimal digits per input byte, most significant first.
#[verifier::external_body]
fn hex_upper(bytes: &Vec<u8>) -> (r: String)
    ensures
        r@ == hex_upper_of(bytes@),
{
    data_encoding::HEXUPPER.encode(bytes.as_slice())
}

/// The upper-case hexadecimal SHA-256 digest of an archive's bytes, as the
/// hash query reports it.
pub fn archive_hash_hex(bytes: &Vec<u8>) -> (r: String)
    ensures
        r@ == hex_upper_of(sha256_of(bytes@)),
{
    let digest = sha256_digest(bytes);
    hex_upper(&digest)
}

} // verus!
