//! Path text clean-up.
//!
//! On Windows a canonical path is reported in its verbatim form, which starts
//! with the four characters `\\?\`. Tools that receive such a path on a
//! command line often cannot cope with the marker, so it is removed before a
//! path is handed on.

use vstd::prelude::*;
use vstd::string::*;

verus! {

/// Whether `s` starts with the verbatim marker `\\?\`.
pub open spec fn starts_with_verbatim(s: Seq<char>) -> bool {
    &&& s.len() >= 4
    &&& s[0] == '\\'
    &&& s[1] == '\\'
    &&& s[2] == '?'
    &&& s[3] == '\\'
}

/// `s` without any verbatim markers at its start. Markers that follow one
/// another are all removed; a marker further inside the text is kept.
pub open spec fn strip_verbatim(s: Seq<char>) -> Seq<char>
    decreases s.len(),
{
    if starts_with_verbatim(s) {
        strip_verbatim(s.subrange(4, s.len() as int))
    } else {
        s
    }
}

fn marker_at(path: &str, at: usize, len: usize) -> (found: bool)
    requires
        len == path@.len(),
        at <= len,
    ensures
        found == starts_with_verbatim(path@.subrange(at as int, len as int)),
{
    if len - at < 4 {
        return false;
    }
    let ghost rest = path@.subrange(at as int, len as int);
    assert(rest[0] == path@[at as int]);
    assert(rest[1] == path@[at + 1]);
    assert(rest[2] == path@[at + 2]);
    assert(rest[3] == path@[at + 3]);
    path.get_char(at) == '\\' && path.get_char(at + 1) == '\\' && path.get_char(at + 2) == '?'
        && path.get_char(at + 3) == '\\'
}

/// Removes the verbatim markers from the start of a canonical path's text.
///
/// The caller resolves the path against the file system first and passes the
/// text of what came back (or of the path itself where it could not be
/// resolved).
pub fn fix_path(path: &str) -> (fixed: String)
    ensures
        fixed@ == strip_verbatim(path@),
{
    let len = path.unicode_len();
    let mut at: usize = 0;
    proof {
        assert(path@.subrange(0, len as int) =~= path@);
    }
    while marker_at(path, at, len)
        invariant
            len == path@.len(),
            at <= len,
            strip_verbatim(path@) == strip_verbatim(path@.subrange(at as int, len as int)),
        decreases len - at,
    {
        proof {
            let rest = path@.subrange(at as int, len as int);
            assert(rest.subrange(4, rest.len() as int) =~= path@.subrange(at + 4, len as int));
        }
        at = at + 4;
    }
    String::from_str(path.substring_char(at, len))
}

} // verus!
