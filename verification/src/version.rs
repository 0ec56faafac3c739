//! Semantic versions: `major.minor.patch`, with optional pre-release and
//! build annotations (`1.2.3-rc1+build5`).  Parsing and formatting are
//! verified inverses of each other.

use vstd::prelude::*;

use crate::strutil::{
    all_digits, dec_str, dec_val, digit_char, is_digit, is_u64_numeral, join_on, join_strings,
    lemma_dec_str_is_numeral, lemma_join_first, lemma_join_split, lemma_no_char_split_whole,
    lemma_numeral_unique, lemma_split_concat, parse_u64_dec, seq_contains_char, split_on,
    split_string, str_eq, u64_to_dec,
};

verus! {

/// The mathematical value of a version.
pub struct VersionView {
    pub major: nat,
    pub minor: nat,
    pub patch: nat,
    pub pre: Seq<char>,
    pub build: Seq<char>,
}

/// A semantic version.  An empty `pre` or `build` string means the
/// annotation is absent.
pub struct Version {
    pub major: u64,
    pub minor: u64,
    pub patch: u64,
    pub pre: String,
    pub build: String,
}

impl View for Version {
    type V = VersionView;

    open spec fn view(&self) -> VersionView {
        VersionView {
            major: self.major as nat,
            minor: self.minor as nat,
            patch: self.patch as nat,
            pre: self.pre@,
            build: self.build@,
        }
    }
}

impl Clone for Version {
    fn clone(&self) -> (r: Self)
        ensures
            r@ == self@,
    {
        Version {
            major: self.major,
            minor: self.minor,
            patch: self.patch,
            pre: self.pre.clone(),
            build: self.build.clone(),
        }
    }
}

/// Characters allowed in pre-release and build annotations.
pub open spec fn is_extra_char(c: char) -> bool {
    ||| 97 <= c as u32 <= 122  // 'a'..'z'
    ||| 65 <= c as u32 <= 90  // 'A'..'Z'
    ||| is_digit(c)
    ||| c == '.'
    ||| c == '-'
}

pub open spec fn valid_extra(s: Seq<char>) -> bool {
    forall|i: int| 0 <= i < s.len() ==> is_extra_char(#[trigger] s[i])
}

impl VersionView {
    /// A well-formed version: annotations hold only their allowed
    /// characters, so that formatting and parsing invert each other.
    pub open spec fn wf(self) -> bool {
        &&& self.major <= u64::MAX
        &&& self.minor <= u64::MAX
        &&& self.patch <= u64::MAX
        &&& valid_extra(self.pre)
        &&& valid_extra(self.build)
    }
}

/// The canonical text of a version.
pub open spec fn version_str(v: VersionView) -> Seq<char> {
    dec_str(v.major) + seq!['.'] + dec_str(v.minor) + seq!['.'] + dec_str(v.patch) + (if v.pre.len()
        > 0 {
        seq!['-'] + v.pre
    } else {
        Seq::empty()
    }) + (if v.build.len() > 0 {
        seq!['+'] + v.build
    } else {
        Seq::empty()
    })
}

/// What parsing a version text yields: at most one `+`, a nonempty valid
/// build after it; the part before the first `-` is `major.minor.patch`,
/// three decimal numerals; the rest is a nonempty valid pre-release.
pub open spec fn parse_version_spec(s: Seq<char>) -> Option<VersionView> {
    let pp = split_on(s, '+');
    let head = pp[0];
    let build = if pp.len() == 2 {
        pp[1]
    } else {
        Seq::empty()
    };
    let dp = split_on(head, '-');
    let core = dp[0];
    let pre = join_on(dp.skip(1), '-');
    let cp = split_on(core, '.');
    if pp.len() > 2 {
        None
    } else if pp.len() == 2 && !(build.len() > 0 && valid_extra(build)) {
        None
    } else if dp.len() >= 2 && !(pre.len() > 0 && valid_extra(pre)) {
        None
    } else if cp.len() != 3 {
        None
    } else if !(is_u64_numeral(cp[0]) && is_u64_numeral(cp[1]) && is_u64_numeral(cp[2])) {
        None
    } else {
        Some(
            VersionView {
                major: dec_val(cp[0]),
                minor: dec_val(cp[1]),
                patch: dec_val(cp[2]),
                pre: if dp.len() >= 2 {
                    pre
                } else {
                    Seq::empty()
                },
                build,
            },
        )
    }
}

/// Tests whether all characters are allowed in an annotation.
pub fn check_extra(s: &str) -> (r: bool)
    ensures
        r == valid_extra(s@),
{
    let n = s.unicode_len();
    let mut i: usize = 0;
    while i < n
        invariant
            0 <= i <= n,
            n == s@.len(),
            forall|k: int| 0 <= k < i ==> is_extra_char(#[trigger] s@[k]),
        decreases n - i,
    {
        let c = s.get_char(i);
        let u = c as u32;
        let ok = (97 <= u && u <= 122) || (65 <= u && u <= 90) || (48 <= u && u <= 57) || c == '.'
            || c == '-';
        if !ok {
            return false;
        }
        i = i + 1;
    }
    true
}

impl Version {
    /// Whether two versions denote the same version.
    pub fn same_as(&self, other: &Version) -> (r: bool)
        ensures
            r == (self@ == other@),
    {
        let r = self.major == other.major && self.minor == other.minor && self.patch
            == other.patch && str_eq(self.pre.as_str(), other.pre.as_str()) && str_eq(
            self.build.as_str(),
            other.build.as_str(),
        );
        r
    }

    /// The canonical text of this version.
    pub fn to_text(&self) -> (s: String)
        ensures
            s@ == version_str(self@),
    {
        let mut s = u64_to_dec(self.major);
        s.push('.');
        let minor = u64_to_dec(self.minor);
        crate::strutil::append_str(&mut s, &minor);
        s.push('.');
        let patch = u64_to_dec(self.patch);
        crate::strutil::append_str(&mut s, &patch);
        if self.pre.as_str().unicode_len() > 0 {
            s.push('-');
            let pre = self.pre.clone();
            crate::strutil::append_str(&mut s, &pre);
        }
        if self.build.as_str().unicode_len() > 0 {
            s.push('+');
            let build = self.build.clone();
            crate::strutil::append_str(&mut s, &build);
        }
        proof {
            assert(s@ =~= version_str(self@));
        }
        s
    }

    /// Parse a version text; `None` exactly when the text is not a valid
    /// version.
    pub fn parse(s: &str) -> (r: Option<Version>)
        ensures
            r matches Some(v) ==> parse_version_spec(s@) == Some(v@) && v@.wf(),
            r is None ==> parse_version_spec(s@) is None,
    {
        let pp = split_string(s, '+');
        let ghost ppv = split_on(s@, '+');
        proof {
            assert(pp@.map_values(|p: String| p@).len() == ppv.len());
        }
        if pp.len() > 2 {
            return None;
        }
        let mut build = String::new();
        if pp.len() == 2 {
            proof {
                assert(pp@.map_values(|p: String| p@)[1] == ppv[1]);
            }
            if pp[1].as_str().unicode_len() == 0 {
                return None;
            }
            if !check_extra(pp[1].as_str()) {
                return None;
            }
            build = pp[1].clone();
        }
        let head = &pp[0];
        proof {
            assert(pp@.map_values(|p: String| p@)[0] == ppv[0]);
        }
        let dp = split_string(head.as_str(), '-');
        let ghost dpv = split_on(head@, '-');
        proof {
            assert(dp@.map_values(|p: String| p@).len() == dpv.len());
            assert(dp@.map_values(|p: String| p@)[0] == dpv[0]);
        }
        let mut pre = String::new();
        if dp.len() >= 2 {
            let mut tail: Vec<String> = Vec::new();
            let mut i: usize = 1;
            while i < dp.len()
                invariant
                    1 <= i <= dp@.len(),
                    dpv == dp@.map_values(|p: String| p@),
                    tail@.map_values(|p: String| p@) == dpv.skip(1).take(i - 1),
                decreases dp@.len() - i,
            {
                let ghost pretail = tail@.map_values(|p: String| p@);
                tail.push(dp[i].clone());
                proof {
                    assert(dp@.map_values(|p: String| p@)[i as int] == dpv[i as int]);
                    assert(tail@.map_values(|p: String| p@) =~= pretail.push(dpv[i as int]));
                    assert(dpv.skip(1).take(i as int) =~= dpv.skip(1).take(i - 1).push(
                        dpv[i as int],
                    ));
                }
                i = i + 1;
            }
            proof {
                assert(dpv.skip(1).take(dpv.len() - 1) =~= dpv.skip(1));
            }
            pre = join_strings(&tail, '-');
            if pre.as_str().unicode_len() == 0 {
                return None;
            }
            if !check_extra(pre.as_str()) {
                return None;
            }
        }
        let core = &dp[0];
        let cp = split_string(core.as_str(), '.');
        let ghost cpv = split_on(core@, '.');
        proof {
            assert(cp@.map_values(|p: String| p@).len() == cpv.len());
        }
        if cp.len() != 3 {
            return None;
        }
        proof {
            assert(cp@.map_values(|p: String| p@)[0] == cpv[0]);
            assert(cp@.map_values(|p: String| p@)[1] == cpv[1]);
            assert(cp@.map_values(|p: String| p@)[2] == cpv[2]);
        }
        let major = match parse_u64_dec(cp[0].as_str()) {
            Some(v) => v,
            None => {
                return None;
            },
        };
        let minor = match parse_u64_dec(cp[1].as_str()) {
            Some(v) => v,
            None => {
                return None;
            },
        };
        let patch = match parse_u64_dec(cp[2].as_str()) {
            Some(v) => v,
            None => {
                return None;
            },
        };
        Some(Version { major, minor, patch, pre, build })
    }
}

/// Numerals contain no `.`, `-`, or `+`.
proof fn lemma_numeral_free_of(s: Seq<char>, c: char)
    requires
        all_digits(s),
        !(48 <= c as u32 <= 57),
    ensures
        !seq_contains_char(s, c),
{
    if seq_contains_char(s, c) {
        let j = choose|j: int| 0 <= j < s.len() && s[j] == c;
        assert(is_digit(s[j]));
    }
}

/// Formatting then parsing a well-formed version restores it exactly.
pub proof fn lemma_version_roundtrip(v: VersionView)
    requires
        v.wf(),
    ensures
        parse_version_spec(version_str(v)) == Some(v),
{
    let s = version_str(v);
    let maj = dec_str(v.major);
    let min = dec_str(v.minor);
    let pat = dec_str(v.patch);
    lemma_dec_str_is_numeral(v.major);
    lemma_dec_str_is_numeral(v.minor);
    lemma_dec_str_is_numeral(v.patch);
    let core = maj + seq!['.'] + min + seq!['.'] + pat;
    let head = core + (if v.pre.len() > 0 {
        seq!['-'] + v.pre
    } else {
        Seq::<char>::empty()
    });

    // The `+` split isolates the build annotation.
    assert(!seq_contains_char(core, '+')) by {
        if seq_contains_char(core, '+') {
            let j = choose|j: int| 0 <= j < core.len() && core[j] == '+';
            assert(core =~= (maj + seq!['.']) + (min + seq!['.'] + pat));
            lemma_numeral_free_of(maj, '+');
            lemma_numeral_free_of(min, '+');
            lemma_numeral_free_of(pat, '+');
            if j < maj.len() {
                assert(maj[j] == '+');
            } else if j == maj.len() {
                assert(core[j] == '.');
            } else if j < maj.len() + 1 + min.len() {
                assert(min[j - maj.len() - 1] == '+');
            } else if j == maj.len() + 1 + min.len() {
                assert(core[j] == '.');
            } else {
                assert(pat[j - maj.len() - min.len() - 2] == '+');
            }
        }
    }
    assert(!seq_contains_char(head, '+')) by {
        if v.pre.len() > 0 {
            if seq_contains_char(head, '+') {
                let j = choose|j: int| 0 <= j < head.len() && head[j] == '+';
                if j < core.len() {
                    assert(seq_contains_char(core, '+'));
                } else if j == core.len() {
                    assert(head[j] == '-');
                } else {
                    assert(is_extra_char(v.pre[j - core.len() - 1]));
                    assert(v.pre[j - core.len() - 1] == '+');
                }
            }
        } else {
            assert(head =~= core);
        }
    }

    let pp = split_on(s, '+');
    if v.build.len() > 0 {
        assert(s =~= head.push('+') + v.build) by {
            assert(s =~= head + seq!['+'] + v.build);
            assert(head + seq!['+'] =~= head.push('+'));
        }
        assert(s =~= head + seq!['+'] + v.build);
        lemma_split_concat(head, v.build, '+');
        lemma_no_char_split_whole(head, '+');
        assert(!seq_contains_char(v.build, '+')) by {
            if seq_contains_char(v.build, '+') {
                let j = choose|j: int| 0 <= j < v.build.len() && v.build[j] == '+';
                assert(is_extra_char(v.build[j]));
            }
        }
        lemma_no_char_split_whole(v.build, '+');
        assert(pp =~= seq![head, v.build]);
    } else {
        assert(s =~= head);
        lemma_no_char_split_whole(head, '+');
        assert(pp =~= seq![head]);
    }
    assert(pp[0] == head);

    // The `-` split isolates the pre-release annotation.
    let dp = split_on(head, '-');
    assert(!seq_contains_char(core, '-')) by {
        if seq_contains_char(core, '-') {
            let j = choose|j: int| 0 <= j < core.len() && core[j] == '-';
            lemma_numeral_free_of(maj, '-');
            lemma_numeral_free_of(min, '-');
            lemma_numeral_free_of(pat, '-');
            if j < maj.len() {
                assert(maj[j] == '-');
            } else if j == maj.len() {
                assert(core[j] == '.');
            } else if j < maj.len() + 1 + min.len() {
                assert(min[j - maj.len() - 1] == '-');
            } else if j == maj.len() + 1 + min.len() {
                assert(core[j] == '.');
            } else {
                assert(pat[j - maj.len() - min.len() - 2] == '-');
            }
        }
    }
    if v.pre.len() > 0 {
        assert(head =~= core + seq!['-'] + v.pre);
        lemma_split_concat(core, v.pre, '-');
        lemma_no_char_split_whole(core, '-');
        assert(dp =~= seq![core] + split_on(v.pre, '-'));
        assert(dp[0] == core);
        assert(dp.skip(1) =~= split_on(v.pre, '-'));
        lemma_join_split(v.pre, '-');
        assert(join_on(dp.skip(1), '-') == v.pre);
        assert(dp.len() >= 2);
    } else {
        assert(head =~= core);
        lemma_no_char_split_whole(core, '-');
        assert(dp =~= seq![core]);
    }

    // The `.` split of the core yields the three numerals.
    let cp = split_on(core, '.');
    lemma_split_concat(maj + seq!['.'] + min, pat, '.');
    assert(core =~= (maj + seq!['.'] + min) + seq!['.'] + pat);
    lemma_split_concat(maj, min, '.');
    lemma_numeral_free_of(maj, '.');
    lemma_numeral_free_of(min, '.');
    lemma_numeral_free_of(pat, '.');
    lemma_no_char_split_whole(maj, '.');
    lemma_no_char_split_whole(min, '.');
    lemma_no_char_split_whole(pat, '.');
    assert(cp =~= seq![maj, min, pat]);

    assert(parse_version_spec(s) matches Some(w) && w.major == v.major && w.minor == v.minor
        && w.patch == v.patch && w.pre == v.pre && w.build == v.build);
}


/// A parsed version formats back to exactly the text it was parsed from:
/// version texts are canonical.
pub proof fn lemma_version_canonical(s: Seq<char>)
    requires
        parse_version_spec(s) is Some,
    ensures
        parse_version_spec(s).unwrap().wf(),
        version_str(parse_version_spec(s).unwrap()) == s,
{
    let v = parse_version_spec(s).unwrap();
    let pp = split_on(s, '+');
    let head = pp[0];
    let build = if pp.len() == 2 {
        pp[1]
    } else {
        Seq::<char>::empty()
    };
    let dp = split_on(head, '-');
    let core = dp[0];
    let pre = join_on(dp.skip(1), '-');
    let cp = split_on(core, '.');

    crate::strutil::lemma_split_on_spec(s, '+');
    lemma_join_split(s, '+');
    // The text splits as head, plus the build annotation if any.
    if pp.len() == 2 {
        assert(pp.drop_last() =~= seq![head]);
        assert(join_on(seq![head], '+') == head);
        assert(s == head.push('+') + build) by {
            assert(join_on(pp, '+') == join_on(pp.drop_last(), '+').push('+') + pp.last());
        }
        assert(v.build == build && build.len() > 0);
    } else {
        assert(pp.len() == 1);
        assert(s == head);
        assert(v.build == Seq::<char>::empty());
    }

    // The head splits as the dotted core, plus the pre-release if any.
    crate::strutil::lemma_split_on_spec(head, '-');
    lemma_join_split(head, '-');
    if dp.len() >= 2 {
        lemma_join_first(dp, '-');
        assert(dp.drop_first() =~= dp.skip(1));
        assert(head == core + seq!['-'] + pre);
        assert(v.pre == pre && pre.len() > 0);
    } else {
        assert(dp.len() == 1);
        assert(join_on(dp, '-') == dp[0]);
        assert(head == core);
        assert(v.pre == Seq::<char>::empty());
    }

    // The core is the three numerals, dot-separated.
    lemma_join_split(core, '.');
    assert(cp.len() == 3);
    assert(core == cp[0] + seq!['.'] + cp[1] + seq!['.'] + cp[2]) by {
        assert(cp.drop_last() =~= seq![cp[0], cp[1]]);
        assert(join_on(cp, '.') == join_on(cp.drop_last(), '.').push('.') + cp.last());
        assert(seq![cp[0], cp[1]].drop_last() =~= seq![cp[0]]);
        assert(join_on(seq![cp[0]], '.') == cp[0]);
        assert(join_on(seq![cp[0], cp[1]], '.') == join_on(seq![cp[0]], '.').push('.') + cp[1]);
        assert(join_on(cp.drop_last(), '.') == join_on(seq![cp[0], cp[1]], '.'));
        assert(core =~= cp[0] + seq!['.'] + cp[1] + seq!['.'] + cp[2]);
    }
    lemma_numeral_unique(cp[0]);
    lemma_numeral_unique(cp[1]);
    lemma_numeral_unique(cp[2]);
    assert(dec_str(v.major) == cp[0] && dec_str(v.minor) == cp[1] && dec_str(v.patch) == cp[2]);
    assert(version_str(v) =~= s);
}

} // verus!
