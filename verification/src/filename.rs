//! Validated file names: a single, normal path component, as accepted from
//! a download request.

use vstd::prelude::*;

use crate::strutil::{real_segments, split_on, split_string};

verus! {

/// Why a requested file name was rejected.
#[derive(Clone, Copy, PartialEq, Eq, Structural, Debug)]
pub enum FileNameError {
    /// The request text was not valid UTF-8 once decoded.
    Utf8Error,
    /// The text is not a single normal path component.
    InvalidPath,
}

/// A file name whose path form is exactly one normal component: it does
/// not start with a separator or a `.` segment, and after dropping empty
/// and `.` segments — as a filesystem path parser does — one segment
/// remains, which is not `..`.  `name`, `name/` and `name/.` qualify;
/// the empty text, `.`, `..`, `/name`, `./name` and `a/b` do not.
pub open spec fn valid_file_name(s: Seq<char>) -> bool {
    let segs = split_on(s, '/');
    let kept = real_segments(segs);
    &&& segs[0].len() > 0
    &&& segs[0] != seq!['.']
    &&& kept.len() == 1
    &&& kept[0] != seq!['.', '.']
}

/// A validated single-component file name.
#[derive(Debug)]
pub struct FileName {
    value: String,
}

impl View for FileName {
    type V = Seq<char>;

    closed spec fn view(&self) -> Seq<char> {
        self.value@
    }
}

impl FileName {
    /// Accepts exactly the texts whose path form is a single normal
    /// component; the accepted text is kept verbatim.
    pub fn parse(s: &str) -> (r: Result<FileName, FileNameError>)
        ensures
            r matches Ok(f) ==> valid_file_name(s@) && f@ == s@,
            r is Err ==> !valid_file_name(s@),
            r matches Err(e) ==> e == FileNameError::InvalidPath,
    {
        let segs = split_string(s, '/');
        let ghost sv = split_on(s@, '/');
        proof {
            crate::strutil::lemma_split_on_spec(s@, '/');
            assert(segs@.map_values(|p: String| p@).len() == sv.len());
            assert(segs@.map_values(|p: String| p@)[0] == sv[0]);
        }
        let first = &segs[0];
        let n0 = first.as_str().unicode_len();
        if n0 == 0 {
            return Err(FileNameError::InvalidPath);
        }
        if n0 == 1 && first.as_str().get_char(0) == '.' {
            proof {
                assert(sv[0] =~= seq!['.']);
            }
            return Err(FileNameError::InvalidPath);
        }
        proof {
            if sv[0] == seq!['.'] {
                assert(sv[0].len() == 1 && sv[0][0] == '.');
            }
        }
        // Keep the segments a path parser would: nonempty and not `.`.
        let mut kept: Vec<String> = Vec::new();
        let mut i: usize = 0;
        proof {
            assert(sv.take(0) =~= Seq::<Seq<char>>::empty());
            assert(kept@.map_values(|p: String| p@) =~= real_segments(sv.take(0)));
        }
        while i < segs.len()
            invariant
                0 <= i <= segs@.len(),
                sv == segs@.map_values(|p: String| p@),
                kept@.map_values(|p: String| p@) == real_segments(sv.take(i as int)),
            decreases segs@.len() - i,
        {
            let ghost pre = kept@.map_values(|p: String| p@);
            proof {
                assert(segs@.map_values(|p: String| p@)[i as int] == sv[i as int]);
                assert(sv.take(i as int + 1).drop_last() =~= sv.take(i as int));
                assert(sv.take(i as int + 1).last() == sv[i as int]);
            }
            let n = segs[i].as_str().unicode_len();
            let is_dot = n == 1 && segs[i].as_str().get_char(0) == '.';
            proof {
                if n == 1 && sv[i as int][0] == '.' {
                    assert(sv[i as int] =~= seq!['.']);
                }
                if sv[i as int] == seq!['.'] {
                    assert(sv[i as int][0] == '.');
                }
            }
            if n > 0 && !is_dot {
                let seg = segs[i].clone();
                kept.push(seg);
                proof {
                    assert(kept@.map_values(|p: String| p@) =~= pre.push(sv[i as int]));
                }
            }
            i = i + 1;
        }
        proof {
            assert(sv.take(sv.len() as int) =~= sv);
        }
        if kept.len() != 1 {
            return Err(FileNameError::InvalidPath);
        }
        proof {
            assert(kept@.map_values(|p: String| p@)[0] == real_segments(sv)[0]);
        }
        let k = &kept[0];
        let kn = k.as_str().unicode_len();
        if kn == 2 && k.as_str().get_char(0) == '.' && k.as_str().get_char(1) == '.' {
            proof {
                assert(real_segments(sv)[0] =~= seq!['.', '.']);
            }
            return Err(FileNameError::InvalidPath);
        }
        proof {
            if real_segments(sv)[0] == seq!['.', '.'] {
                assert(real_segments(sv)[0].len() == 2 && real_segments(sv)[0][0] == '.'
                    && real_segments(sv)[0][1] == '.');
            }
        }
        Ok(FileName { value: s.to_owned() })
    }

    /// The underlying file name.
    pub fn value(self) -> (r: String)
        ensures
            r@ == self@,
    {
        self.value
    }
}

} // verus!
