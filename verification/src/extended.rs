//! The `\\?\` extended-length prefix that Windows' `canonicalize()` puts in
//! front of the paths it returns, and how it is taken off again.
use vstd::prelude::*;

use crate::components::{is_ascii_letter, is_ascii_letter_char};

verus! {

/// `\\?\UNC\`, the verbatim prefix of a UNC path.
pub open spec fn verbatim_unc_marker() -> Seq<char> {
    seq!['\\', '\\', '?', '\\', 'U', 'N', 'C', '\\']
}

/// `\\?\`, the verbatim prefix.
pub open spec fn verbatim_marker() -> Seq<char> {
    seq!['\\', '\\', '?', '\\']
}

/// `\\`, the start of a UNC path.
pub open spec fn unc_start() -> Seq<char> {
    seq!['\\', '\\']
}

/// `s` without its extended-length prefix: `\\?\UNC\server\share` becomes
/// `\\server\share`, `\\?\C:\dir` becomes `C:\dir` (a drive letter, a colon and a
/// backslash must follow the prefix), and every other path is left as it
/// is.
pub open spec fn extended_length_stripped(s: Seq<char>) -> Seq<char> {
    if verbatim_unc_marker().is_prefix_of(s) {
        unc_start() + s.skip(8)
    } else if verbatim_marker().is_prefix_of(s) && s.len() >= 7 && is_ascii_letter(s[4]) && s[5]
        == ':' && s[6] == '\\' {
        s.skip(4)
    } else {
        s
    }
}

/// `s` without its extended-length prefix, whatever follows `\\?\`.
pub open spec fn extended_prefix_stripped(s: Seq<char>) -> Seq<char> {
    if verbatim_unc_marker().is_prefix_of(s) {
        unc_start() + s.skip(8)
    } else if verbatim_marker().is_prefix_of(s) {
        s.skip(4)
    } else {
        s
    }
}

/// Whether `s` begins with the characters of `prefix`.
fn starts_with(s: &str, prefix: &str) -> (b: bool)
    ensures
        b == prefix@.is_prefix_of(s@),
{
    let n = prefix.unicode_len();
    if n > s.unicode_len() {
        return false;
    }
    let mut i: usize = 0;
    while i < n
        invariant
            n == prefix@.len(),
            n <= s@.len(),
            i <= n,
            forall|j: int| 0 <= j < i ==> prefix@[j] == s@[j],
        decreases n - i,
    {
        if prefix.get_char(i) != s.get_char(i) {
            return false;
        }
        i += 1;
    }
    assert(prefix@ =~= s@.subrange(0, n as int));
    true
}

/// `\\` followed by `path` from position `from` on.
fn unc_with_rest(path: &str, from: usize) -> (res: String)
    requires
        from <= path@.len(),
    ensures
        res@ == unc_start() + path@.skip(from as int),
{
    proof {
        reveal_strlit("\\\\");
    }
    let mut res = String::from_str("\\\\");
    assert(res@ =~= unc_start());
    res.append(path.substring_char(from, path.unicode_len()));
    assert(path@.subrange(from as int, path@.len() as int) =~= path@.skip(from as int));
    res
}

/// Strips the `\\?\` extended-length prefix from a Windows path:
///
/// - `\\?\C:\...` becomes `C:\...` (only where a backslash follows the
///   drive letter and colon)
/// - `\\?\UNC\server\share\...` becomes `\\server\share\...`
/// - every other path is returned unchanged.
pub fn strip_extended_length_prefix(path: &str) -> (res: String)
    ensures
        res@ == extended_length_stripped(path@),
{
    proof {
        reveal_strlit("\\\\?\\UNC\\");
        reveal_strlit("\\\\?\\");
    }
    let unc = "\\\\?\\UNC\\";
    assert(unc@ =~= verbatim_unc_marker());
    if starts_with(path, unc) {
        return unc_with_rest(path, 8);
    }
    let verbatim = "\\\\?\\";
    assert(verbatim@ =~= verbatim_marker());
    if starts_with(path, verbatim) {
        let n = path.unicode_len();
        if n >= 7 && is_ascii_letter_char(path.get_char(4)) && path.get_char(5) == ':'
            && path.get_char(6) == '\\' {
            let rest = String::from_str(path.substring_char(4, n));
            assert(path@.subrange(4, n as int) =~= path@.skip(4));
            return rest;
        }
    }
    String::from_str(path)
}

/// Strips the `\\?\` extended-length prefix from a Windows path so that it
/// reads as a plain path:
///
/// - `\\?\UNC\server\share\...` becomes `\\server\share\...`
/// - `\\?\anything` becomes `anything`
/// - every other path is returned unchanged.
pub fn strip_extended_prefix(path: &str) -> (res: String)
    ensures
        res@ == extended_prefix_stripped(path@),
{
    proof {
        reveal_strlit("\\\\?\\UNC\\");
        reveal_strlit("\\\\?\\");
    }
    let unc = "\\\\?\\UNC\\";
    assert(unc@ =~= verbatim_unc_marker());
    if starts_with(path, unc) {
        return unc_with_rest(path, 8);
    }
    let verbatim = "\\\\?\\";
    assert(verbatim@ =~= verbatim_marker());
    if starts_with(path, verbatim) {
        let n = path.unicode_len();
        let rest = String::from_str(path.substring_char(4, n));
        assert(path@.subrange(4, n as int) =~= path@.skip(4));
        return rest;
    }
    String::from_str(path)
}

} // verus!
