//! Package identifiers and the path codec.
//!
//! An archive lives at `{category}/{name}/{name}-{version}.nest` below the
//! package directory.  `encode_path` builds that location from an
//! identifier; `parse_npf_path` inverts it, resolving names that themselves
//! contain `-` by scanning for the first dash-segment that contains a `.`
//! (the start of the dotted version).

use vstd::prelude::*;

use crate::strutil::{
    first_index_of, join_on, join_strings, lemma_first_index_of_spec, lemma_join_concat,
    lemma_join_split, lemma_no_char_split_whole, lemma_split_concat, lemma_split_first_segment,
    lemma_split_on_spec, lemma_split_segment_chars, seq_contains_char, split_on, split_string,
    str_contains_char, str_eq,
};
use crate::version::{version_str, parse_version_spec, Version, VersionView};

verus! {

/// Failure to read a package identifier out of an archive location; holds
/// the offending path.
#[derive(Clone, Debug)]
pub struct ParseNPFPathError(pub String);

/// An archive whose declared identity disagrees with its location; holds
/// the offending path.
#[derive(Clone, Debug)]
pub struct NPFPackageIDError(pub String);

/// The characters allowed in repository, category and package names.
pub open spec fn is_name_char(c: char) -> bool {
    ||| 97 <= c as u32 <= 122  // 'a'..'z'
    ||| 48 <= c as u32 <= 57  // '0'..'9'
    ||| c == '-'
    ||| c == '_'
}

/// A valid name: nonempty, lower-case letters, digits, `-` and `_`.
pub open spec fn valid_name(s: Seq<char>) -> bool {
    s.len() > 0 && forall|i: int| 0 <= i < s.len() ==> is_name_char(#[trigger] s[i])
}

/// Tests name validity.
pub fn check_name(s: &str) -> (r: bool)
    ensures
        r == valid_name(s@),
{
    let n = s.unicode_len();
    if n == 0 {
        return false;
    }
    let mut i: usize = 0;
    while i < n
        invariant
            0 <= i <= n,
            n == s@.len(),
            forall|k: int| 0 <= k < i ==> is_name_char(#[trigger] s@[k]),
        decreases n - i,
    {
        let c = s.get_char(i);
        let u = c as u32;
        let ok = (97 <= u && u <= 122) || (48 <= u && u <= 57) || c == '-' || c == '_';
        if !ok {
            return false;
        }
        i = i + 1;
    }
    true
}

/// A package across versions: its category and name.
pub struct PackageShortName {
    pub category: String,
    pub name: String,
}

pub struct ShortNameView {
    pub category: Seq<char>,
    pub name: Seq<char>,
}

impl View for PackageShortName {
    type V = ShortNameView;

    open spec fn view(&self) -> ShortNameView {
        ShortNameView { category: self.category@, name: self.name@ }
    }
}

impl Clone for PackageShortName {
    fn clone(&self) -> (r: Self)
        ensures
            r@ == self@,
    {
        PackageShortName { category: self.category.clone(), name: self.name.clone() }
    }
}

impl PackageShortName {
    pub fn same_as(&self, other: &PackageShortName) -> (r: bool)
        ensures
            r == (self@ == other@),
    {
        str_eq(self.category.as_str(), other.category.as_str()) && str_eq(
            self.name.as_str(),
            other.name.as_str(),
        )
    }
}

/// A short name qualified by its repository.
pub struct PackageFullName {
    pub repository: String,
    pub category: String,
    pub name: String,
}

pub struct FullNameView {
    pub repository: Seq<char>,
    pub category: Seq<char>,
    pub name: Seq<char>,
}

impl View for PackageFullName {
    type V = FullNameView;

    open spec fn view(&self) -> FullNameView {
        FullNameView {
            repository: self.repository@,
            category: self.category@,
            name: self.name@,
        }
    }
}

impl Clone for PackageFullName {
    fn clone(&self) -> (r: Self)
        ensures
            r@ == self@,
    {
        PackageFullName {
            repository: self.repository.clone(),
            category: self.category.clone(),
            name: self.name.clone(),
        }
    }
}

impl PackageFullName {
    pub fn same_as(&self, other: &PackageFullName) -> (r: bool)
        ensures
            r == (self@ == other@),
    {
        str_eq(self.repository.as_str(), other.repository.as_str()) && str_eq(
            self.category.as_str(),
            other.category.as_str(),
        ) && str_eq(self.name.as_str(), other.name.as_str())
    }
}

/// One archive: a short name, its repository, and one version.
pub struct PackageID {
    pub repository: String,
    pub category: String,
    pub name: String,
    pub version: Version,
}

pub struct PackageIdView {
    pub repository: Seq<char>,
    pub category: Seq<char>,
    pub name: Seq<char>,
    pub version: VersionView,
}

impl View for PackageID {
    type V = PackageIdView;

    open spec fn view(&self) -> PackageIdView {
        PackageIdView {
            repository: self.repository@,
            category: self.category@,
            name: self.name@,
            version: self.version@,
        }
    }
}

impl Clone for PackageID {
    fn clone(&self) -> (r: Self)
        ensures
            r@ == self@,
    {
        PackageID {
            repository: self.repository.clone(),
            category: self.category.clone(),
            name: self.name.clone(),
            version: self.version.clone(),
        }
    }
}

impl PackageIdView {
    pub open spec fn wf(self) -> bool {
        &&& valid_name(self.repository)
        &&& valid_name(self.category)
        &&& valid_name(self.name)
        &&& self.version.wf()
    }

    pub open spec fn short_name(self) -> ShortNameView {
        ShortNameView { category: self.category, name: self.name }
    }
}

impl PackageID {
    pub fn same_as(&self, other: &PackageID) -> (r: bool)
        ensures
            r == (self@ == other@),
    {
        str_eq(self.repository.as_str(), other.repository.as_str()) && str_eq(
            self.category.as_str(),
            other.category.as_str(),
        ) && str_eq(self.name.as_str(), other.name.as_str()) && self.version.same_as(
            &other.version,
        )
    }

    /// The short name of this identifier.
    pub fn short_name(&self) -> (r: PackageShortName)
        ensures
            r@ == self@.short_name(),
    {
        PackageShortName { category: self.category.clone(), name: self.name.clone() }
    }
}

// ---------------------------------------------------------------------------
// Encoding
// ---------------------------------------------------------------------------

pub open spec fn nest_ext_chars() -> Seq<char> {
    seq!['n', 'e', 's', 't']
}

/// The canonical relative location of an archive.
pub open spec fn encode_path_spec(id: PackageIdView) -> Seq<char> {
    id.category + seq!['/'] + id.name + seq!['/'] + id.name + seq!['-'] + version_str(id.version)
        + seq!['.'] + nest_ext_chars()
}

/// Builds the relative archive location `{category}/{name}/{name}-{version}.nest`.
pub fn encode_path(id: &PackageID) -> (s: String)
    ensures
        s@ == encode_path_spec(id@),
{
    let mut s = id.category.clone();
    s.push('/');
    crate::strutil::append_str(&mut s, &id.name);
    s.push('/');
    crate::strutil::append_str(&mut s, &id.name);
    s.push('-');
    let vtext = id.version.to_text();
    crate::strutil::append_str(&mut s, &vtext);
    s.push('.');
    s.push('n');
    s.push('e');
    s.push('s');
    s.push('t');
    proof {
        assert(s@ =~= encode_path_spec(id@));
    }
    s
}

// ---------------------------------------------------------------------------
// Decoding
// ---------------------------------------------------------------------------

/// The index of the first segment containing a `.`, where the dotted
/// version must begin.
pub open spec fn first_dot_segment(parts: Seq<Seq<char>>) -> Option<int>
    decreases parts.len(),
{
    if parts.len() == 0 {
        None
    } else if seq_contains_char(parts[0], '.') {
        Some(0)
    } else {
        match first_dot_segment(parts.drop_first()) {
            None => None,
            Some(i) => Some(i + 1),
        }
    }
}

pub proof fn lemma_first_dot_segment_spec(parts: Seq<Seq<char>>)
    ensures
        first_dot_segment(parts) matches Some(i) ==> 0 <= i < parts.len() && seq_contains_char(
            parts[i],
            '.',
        ) && (forall|j: int| 0 <= j < i ==> !seq_contains_char(#[trigger] parts[j], '.')),
        first_dot_segment(parts) is None ==> forall|j: int|
            0 <= j < parts.len() ==> !seq_contains_char(#[trigger] parts[j], '.'),
    decreases parts.len(),
{
    if parts.len() > 0 && !seq_contains_char(parts[0], '.') {
        let d = parts.drop_first();
        lemma_first_dot_segment_spec(d);
        match first_dot_segment(d) {
            None => {
                assert forall|j: int| 0 <= j < parts.len() implies !seq_contains_char(
                    #[trigger] parts[j],
                    '.',
                ) by {
                    if j > 0 {
                        assert(d[j - 1] == parts[j]);
                        assert(!seq_contains_char(d[j - 1], '.'));
                    }
                }
            },
            Some(i) => {
                assert(d[i] == parts[i + 1]);
                assert forall|j: int| 0 <= j < i + 1 implies !seq_contains_char(
                    #[trigger] parts[j],
                    '.',
                ) by {
                    if j > 0 {
                        assert(d[j - 1] == parts[j]);
                        assert(!seq_contains_char(d[j - 1], '.'));
                    }
                }
            },
        }
    }
}

/// The last three `/`-segments of a path: category, directory name, file
/// name.  `None` when there are fewer than three.
pub open spec fn path_triple(path: Seq<char>) -> Option<(Seq<char>, Seq<char>, Seq<char>)> {
    let segs = split_on(path, '/');
    if segs.len() < 3 {
        None
    } else {
        Some((segs[segs.len() - 3], segs[segs.len() - 2], segs[segs.len() - 1]))
    }
}

/// The file stem: the file name up to its last `.`, or the whole name if it
/// has none.
pub open spec fn file_stem(fname: Seq<char>) -> Seq<char> {
    let parts = split_on(fname, '.');
    if parts.len() == 1 {
        fname
    } else {
        join_on(parts.drop_last(), '.')
    }
}

/// What decoding an archive location yields.  The grandparent directory is
/// the category, the parent the package name; the file stem splits on `-`
/// into the name (everything before the first dotted segment, which must
/// equal the directory name) and the version.
pub open spec fn decode_path_spec(path: Seq<char>, repository: Seq<char>) -> Option<
    PackageIdView,
> {
    match path_triple(path) {
        None => None,
        Some((category, dirname, fname)) => {
            let dparts = split_on(file_stem(fname), '-');
            match first_dot_segment(dparts) {
                None => None,
                Some(k) => {
                    let name = join_on(dparts.take(k), '-');
                    let vtext = join_on(dparts.skip(k), '-');
                    if name != dirname {
                        None
                    } else if !valid_name(category) || !valid_name(dirname) {
                        None
                    } else {
                        match parse_version_spec(vtext) {
                            None => None,
                            Some(v) => Some(
                                PackageIdView { repository, category, name: dirname, version: v },
                            ),
                        }
                    }
                },
            }
        },
    }
}

/// Decodes an archive location into the identifier it denotes.
pub fn parse_npf_path(path: &str, repository: &String) -> (r: Result<
    PackageID,
    ParseNPFPathError,
>)
    requires
        valid_name(repository@),
    ensures
        r matches Ok(id) ==> decode_path_spec(path@, repository@) == Some(id@) && id@.wf(),
        r is Err ==> decode_path_spec(path@, repository@) is None,
{
    let segs = split_string(path, '/');
    let ghost segv = split_on(path@, '/');
    proof {
        assert(segs@.map_values(|p: String| p@).len() == segv.len());
    }
    if segs.len() < 3 {
        return Err(ParseNPFPathError(path.to_owned()));
    }
    let category = &segs[segs.len() - 3];
    let dirname = &segs[segs.len() - 2];
    let fname = &segs[segs.len() - 1];
    proof {
        assert(segs@.map_values(|p: String| p@)[segv.len() - 3] == segv[segv.len() - 3]);
        assert(segs@.map_values(|p: String| p@)[segv.len() - 2] == segv[segv.len() - 2]);
        assert(segs@.map_values(|p: String| p@)[segv.len() - 1] == segv[segv.len() - 1]);
    }
    // The file stem: drop the extension after the last `.`, if any.
    let fparts = split_string(fname.as_str(), '.');
    let ghost fpv = split_on(fname@, '.');
    let stem: String;
    if fparts.len() == 1 {
        stem = fname.clone();
    } else {
        let head = crate::strutil::clone_range(&fparts, 0, fparts.len() - 1);
        proof {
            assert(fpv.subrange(0, fpv.len() - 1) =~= fpv.drop_last());
        }
        stem = join_strings(&head, '.');
    }
    proof {
        assert(stem@ == file_stem(fname@));
    }
    // Split the stem on `-` and find where the dotted version begins.
    let dparts = split_string(stem.as_str(), '-');
    let ghost dpv = split_on(stem@, '-');
    let mut k: usize = 0;
    let mut found = false;
    while k < dparts.len() && !found
        invariant
            0 <= k <= dparts@.len(),
            dpv == dparts@.map_values(|p: String| p@),
            !found ==> forall|j: int| 0 <= j < k ==> !seq_contains_char(#[trigger] dpv[j], '.'),
            found ==> k < dparts@.len() && seq_contains_char(dpv[k as int], '.') && (forall|j: int|
                0 <= j < k ==> !seq_contains_char(#[trigger] dpv[j], '.')),
        decreases dparts@.len() - k + (if found { 0int } else { 1int }),
    {
        proof {
            assert(dparts@.map_values(|p: String| p@)[k as int] == dpv[k as int]);
        }
        if str_contains_char(dparts[k].as_str(), '.') {
            found = true;
        } else {
            k = k + 1;
        }
    }
    proof {
        lemma_first_dot_segment_spec(dpv);
        if found {
            assert(first_dot_segment(dpv) == Some(k as int)) by {
                match first_dot_segment(dpv) {
                    None => {
                        assert(!seq_contains_char(dpv[k as int], '.'));
                    },
                    Some(i) => {
                        if i < k {
                            assert(!seq_contains_char(dpv[i], '.'));
                        }
                        if i > k {
                            assert(!seq_contains_char(dpv[k as int], '.'));
                        }
                    },
                }
            }
        } else {
            assert(k == dparts@.len());
            assert(first_dot_segment(dpv) is None) by {
                match first_dot_segment(dpv) {
                    None => {},
                    Some(i) => {
                        assert(!seq_contains_char(dpv[i], '.'));
                    },
                }
            }
        }
    }
    if !found {
        return Err(ParseNPFPathError(path.to_owned()));
    }
    // Rebuild the name (before the version) and the version text.
    let nameparts = crate::strutil::clone_range(&dparts, 0, k);
    proof {
        assert(dpv.subrange(0, k as int) =~= dpv.take(k as int));
    }
    let name2 = join_strings(&nameparts, '-');
    let versparts = crate::strutil::clone_range(&dparts, k, dparts.len());
    proof {
        assert(dpv.subrange(k as int, dpv.len() as int) =~= dpv.skip(k as int));
    }
    let vtext = join_strings(&versparts, '-');
    if !str_eq(name2.as_str(), dirname.as_str()) {
        return Err(ParseNPFPathError(path.to_owned()));
    }
    if !check_name(category.as_str()) || !check_name(dirname.as_str()) {
        return Err(ParseNPFPathError(path.to_owned()));
    }
    let version = match Version::parse(vtext.as_str()) {
        Some(v) => v,
        None => {
            return Err(ParseNPFPathError(path.to_owned()));
        },
    };
    Ok(
        PackageID {
            repository: repository.clone(),
            category: category.clone(),
            name: dirname.clone(),
            version,
        },
    )
}


// ---------------------------------------------------------------------------
// The codec round trip
// ---------------------------------------------------------------------------

/// The text of a well-formed version holds only digits, `.`, `-`, `+` and
/// annotation characters.
proof fn lemma_version_str_free_of(v: VersionView, x: char)
    requires
        v.wf(),
        !crate::strutil::is_digit(x),
        x != '.',
        x != '-',
        x != '+',
        !crate::version::is_extra_char(x),
    ensures
        !seq_contains_char(version_str(v), x),
{
    let maj = crate::strutil::dec_str(v.major);
    let min = crate::strutil::dec_str(v.minor);
    let pat = crate::strutil::dec_str(v.patch);
    crate::strutil::lemma_dec_str_is_numeral(v.major);
    crate::strutil::lemma_dec_str_is_numeral(v.minor);
    crate::strutil::lemma_dec_str_is_numeral(v.patch);
    let prepart = if v.pre.len() > 0 { seq!['-'] + v.pre } else { Seq::<char>::empty() };
    let buildpart = if v.build.len() > 0 { seq!['+'] + v.build } else { Seq::<char>::empty() };
    assert(!seq_contains_char(maj, x)) by {
        if seq_contains_char(maj, x) {
            let j = choose|j: int| 0 <= j < maj.len() && maj[j] == x;
            assert(crate::strutil::is_digit(maj[j]));
        }
    }
    assert(!seq_contains_char(min, x)) by {
        if seq_contains_char(min, x) {
            let j = choose|j: int| 0 <= j < min.len() && min[j] == x;
            assert(crate::strutil::is_digit(min[j]));
        }
    }
    assert(!seq_contains_char(pat, x)) by {
        if seq_contains_char(pat, x) {
            let j = choose|j: int| 0 <= j < pat.len() && pat[j] == x;
            assert(crate::strutil::is_digit(pat[j]));
        }
    }
    assert(!seq_contains_char(seq!['.'], x)) by {
        if seq_contains_char(seq!['.'], x) {
            let j = choose|j: int| 0 <= j < 1 && seq!['.'][j] == x;
        }
    }
    assert(!seq_contains_char(prepart, x)) by {
        if seq_contains_char(prepart, x) {
            let j = choose|j: int| 0 <= j < prepart.len() && prepart[j] == x;
            assert(v.pre.len() > 0);
            if j > 0 {
                assert(crate::version::is_extra_char(v.pre[j - 1]));
            }
        }
    }
    assert(!seq_contains_char(buildpart, x)) by {
        if seq_contains_char(buildpart, x) {
            let j = choose|j: int| 0 <= j < buildpart.len() && buildpart[j] == x;
            assert(v.build.len() > 0);
            if j > 0 {
                assert(crate::version::is_extra_char(v.build[j - 1]));
            }
        }
    }
    crate::strutil::lemma_contains_concat(maj, seq!['.'], x);
    crate::strutil::lemma_contains_concat(maj + seq!['.'], min, x);
    crate::strutil::lemma_contains_concat(maj + seq!['.'] + min, seq!['.'], x);
    crate::strutil::lemma_contains_concat(maj + seq!['.'] + min + seq!['.'], pat, x);
    crate::strutil::lemma_contains_concat(maj + seq!['.'] + min + seq!['.'] + pat, prepart, x);
    crate::strutil::lemma_contains_concat(
        maj + seq!['.'] + min + seq!['.'] + pat + prepart,
        buildpart,
        x,
    );
}

/// A valid name holds no `.` and no `/`.
proof fn lemma_name_free_of(s: Seq<char>, x: char)
    requires
        valid_name(s),
        !is_name_char(x),
    ensures
        !seq_contains_char(s, x),
{
    if seq_contains_char(s, x) {
        let j = choose|j: int| 0 <= j < s.len() && s[j] == x;
        assert(is_name_char(s[j]));
    }
}

/// The version must begin in the first dash-segment after dot-free ones.
proof fn lemma_first_dot_prefix(a: Seq<Seq<char>>, b: Seq<Seq<char>>)
    requires
        forall|j: int| 0 <= j < a.len() ==> !seq_contains_char(#[trigger] a[j], '.'),
        b.len() > 0,
        seq_contains_char(b[0], '.'),
    ensures
        first_dot_segment(a + b) == Some(a.len() as int),
    decreases a.len(),
{
    let s = a + b;
    if a.len() == 0 {
        assert(s =~= b);
    } else {
        assert(s[0] == a[0]);
        assert(!seq_contains_char(s[0], '.'));
        assert(s.drop_first() =~= a.drop_first() + b);
        assert(forall|j: int|
            0 <= j < a.drop_first().len() ==> !seq_contains_char(
                #[trigger] a.drop_first()[j],
                '.',
            )) by {
            assert(forall|j: int| 0 <= j < a.drop_first().len() ==> a.drop_first()[j] == a[j + 1]);
        }
        lemma_first_dot_prefix(a.drop_first(), b);
    }
}

/// Decoding the encoded location of a well-formed identifier restores it.
pub proof fn lemma_codec_roundtrip(id: PackageIdView)
    requires
        id.wf(),
    ensures
        decode_path_spec(encode_path_spec(id), id.repository) == (Some(id)),
{
    let vstr = version_str(id.version);
    let nest = nest_ext_chars();
    let stem0 = id.name + seq!['-'] + vstr;
    let fname = stem0 + seq!['.'] + nest;
    let path = encode_path_spec(id);
    assert(path =~= id.category + seq!['/'] + (id.name + seq!['/'] + fname));

    // The `/` split yields category, directory name and file name.
    lemma_version_str_free_of(id.version, '/');
    lemma_name_free_of(id.category, '/');
    lemma_name_free_of(id.name, '/');
    assert(!seq_contains_char(fname, '/')) by {
        crate::strutil::lemma_contains_concat(id.name, seq!['-'], '/');
        crate::strutil::lemma_contains_concat(id.name + seq!['-'], vstr, '/');
        crate::strutil::lemma_contains_concat(stem0, seq!['.'], '/');
        crate::strutil::lemma_contains_concat(stem0 + seq!['.'], nest, '/');
        assert(!seq_contains_char(seq!['-'], '/')) by {
            if seq_contains_char(seq!['-'], '/') {
                let j = choose|j: int| 0 <= j < 1 && seq!['-'][j] == '/';
            }
        }
        assert(!seq_contains_char(seq!['.'], '/')) by {
            if seq_contains_char(seq!['.'], '/') {
                let j = choose|j: int| 0 <= j < 1 && seq!['.'][j] == '/';
            }
        }
        assert(!seq_contains_char(nest, '/')) by {
            if seq_contains_char(nest, '/') {
                let j = choose|j: int| 0 <= j < nest.len() && nest[j] == '/';
            }
        }
    }
    let segs = split_on(path, '/');
    assert(segs =~= seq![id.category, id.name, fname]) by {
        lemma_split_concat(id.category, id.name + seq!['/'] + fname, '/');
        lemma_split_concat(id.name, fname, '/');
        lemma_no_char_split_whole(id.category, '/');
        lemma_no_char_split_whole(id.name, '/');
        lemma_no_char_split_whole(fname, '/');
    }
    assert(path_triple(path) == Some((id.category, id.name, fname)));

    // The file stem drops the `.nest` extension.
    let fparts = split_on(fname, '.');
    assert(!seq_contains_char(nest, '.')) by {
        if seq_contains_char(nest, '.') {
            let j = choose|j: int| 0 <= j < nest.len() && nest[j] == '.';
        }
    }
    assert(fparts =~= split_on(stem0, '.') + seq![nest]) by {
        lemma_split_concat(stem0, nest, '.');
        lemma_no_char_split_whole(nest, '.');
    }
    crate::strutil::lemma_split_on_spec(stem0, '.');
    assert(fparts.len() >= 2);
    assert(fparts.drop_last() =~= split_on(stem0, '.'));
    lemma_join_split(stem0, '.');
    assert(file_stem(fname) == stem0);

    // The `-` split of the stem: name segments, then version segments.
    let nameparts = split_on(id.name, '-');
    let versparts = split_on(vstr, '-');
    let dparts = split_on(stem0, '-');
    assert(dparts =~= nameparts + versparts) by {
        lemma_split_concat(id.name, vstr, '-');
    }

    // Name segments are dot-free; the first version segment has the dot
    // ending the major numeral.
    lemma_name_free_of(id.name, '.');
    lemma_split_segment_chars(id.name, '-', '.');
    let maj = crate::strutil::dec_str(id.version.major);
    crate::strutil::lemma_dec_str_is_numeral(id.version.major);
    let fi = first_index_of(vstr, '-');
    lemma_first_index_of_spec(vstr, '-');
    assert(seq_contains_char(versparts[0], '.')) by {
        lemma_split_first_segment(vstr, '-');
        assert(vstr[maj.len() as int] == '.');
        assert(fi > maj.len()) by {
            if fi <= maj.len() {
                assert(fi < vstr.len());
                assert(vstr[fi] == '-');
                if fi < maj.len() {
                    assert(vstr[fi] == maj[fi]);
                    assert(crate::strutil::is_digit(maj[fi]));
                }
            }
        }
        assert(versparts[0] == vstr.take(fi));
        assert(vstr.take(fi)[maj.len() as int] == '.');
    }
    crate::strutil::lemma_split_on_spec(vstr, '-');
    lemma_first_dot_prefix(nameparts, versparts);
    assert(first_dot_segment(dparts) == Some(nameparts.len() as int));

    let k = nameparts.len() as int;
    assert(dparts.take(k) =~= nameparts);
    assert(dparts.skip(k) =~= versparts);
    lemma_join_split(id.name, '-');
    lemma_join_split(vstr, '-');
    assert(join_on(dparts.take(k), '-') == id.name);
    assert(join_on(dparts.skip(k), '-') == vstr);
    crate::version::lemma_version_roundtrip(id.version);
    assert(decode_path_spec(path, id.repository) matches Some(w) && w.repository
        == id.repository && w.category == id.category && w.name == id.name && w.version
        == id.version);
}


/// A decodable location with exactly three segments and the archive
/// extension is the canonical encoding of the identifier it decodes to:
/// the codec is a bijection on such locations.
pub proof fn lemma_decode_canonical(path: Seq<char>, repository: Seq<char>)
    requires
        decode_path_spec(path, repository) is Some,
        split_on(path, '/').len() == 3,
        split_on(split_on(path, '/').last(), '.').len() >= 2,
        split_on(split_on(path, '/').last(), '.').last() == nest_ext_chars(),
    ensures
        encode_path_spec(decode_path_spec(path, repository).unwrap()) == path,
{
    let id = decode_path_spec(path, repository).unwrap();
    let segs = split_on(path, '/');
    let category = segs[0];
    let dirname = segs[1];
    let fname = segs[2];
    assert(segs.last() == fname);

    // The path is its three segments, slash-separated.
    lemma_join_split(path, '/');
    assert(path == category + seq!['/'] + dirname + seq!['/'] + fname) by {
        assert(segs.drop_last() =~= seq![category, dirname]);
        assert(join_on(segs, '/') == join_on(segs.drop_last(), '/').push('/') + fname);
        assert(seq![category, dirname].drop_last() =~= seq![category]);
        assert(join_on(seq![category], '/') == category);
        assert(join_on(seq![category, dirname], '/') == join_on(seq![category], '/').push('/')
            + dirname);
        assert(path =~= category + seq!['/'] + dirname + seq!['/'] + fname);
    }

    // The file name is its stem plus the archive extension.
    let fparts = split_on(fname, '.');
    let stem = file_stem(fname);
    assert(stem == join_on(fparts.drop_last(), '.'));
    lemma_join_split(fname, '.');
    assert(fname == stem + seq!['.'] + nest_ext_chars()) by {
        assert(join_on(fparts, '.') == join_on(fparts.drop_last(), '.').push('.')
            + fparts.last());
        assert(fname =~= stem + seq!['.'] + nest_ext_chars());
    }

    // The stem is the directory name plus the canonical version text.
    let dparts = split_on(stem, '-');
    let k = first_dot_segment(dparts).unwrap();
    lemma_first_dot_segment_spec(dparts);
    let name2 = join_on(dparts.take(k), '-');
    let vtext = join_on(dparts.skip(k), '-');
    assert(name2 == dirname);
    assert(k >= 1) by {
        if k == 0 {
            assert(dparts.take(0) =~= Seq::<Seq<char>>::empty());
            assert(name2.len() == 0);
            assert(valid_name(dirname));
        }
    }
    lemma_join_split(stem, '-');
    lemma_join_concat(dparts, '-', k);
    assert(stem == dirname + seq!['-'] + vtext);

    // The version text is canonical.
    crate::version::lemma_version_canonical(vtext);
    assert(version_str(id.version) == vtext);

    assert(encode_path_spec(id) =~= path);
}

} // verus!
