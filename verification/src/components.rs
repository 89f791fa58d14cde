//! The components of a path, read with the rules of Unix or of Windows.
//!
//! A path is read the way the standard library's `Path::components` reads
//! it on each platform:
//!
//! - On Windows a path may begin with a prefix: a drive (`C:`) or a UNC
//!   share (`\\server\share`); both `\` and `/` separate components.
//!   On Unix there is no prefix and only `/` separates.
//! - A separator right after the prefix (or at the start) is the root
//!   component, written `\` on Windows and `/` on Unix. A share prefix with
//!   nothing after it (`\\server\share`) has a root all the same.
//! - Otherwise a leading `.` (alone or followed by a separator) is the
//!   current-directory component.
//! - The rest is split at every separator; empty segments and `.` segments
//!   name nothing.
//!
//! Two paths are the same path when their components are, one by one,
//! except that on Windows a drive letter matches in either case (`c:` is
//! `C:`), as the standard library's `Path` comparison has it.
//!
//! Windows verbatim paths (`\\?\...`, `\\.\...`) are read by the same
//! rules: `\\?\C:` and `\\.\COM1` come out as one prefix, as they do in the
//! standard library, but within them `/` still separates and `.` is still
//! skipped, and `\\?\UNC\server\share` comes out as the prefix `\\?\UNC`
//! followed by the root and two names. Translation takes the `\\?\` prefix off drive and UNC paths
//! before it reads them.
use vstd::prelude::*;

verus! {

/// The platform rules a path is read with.
#[derive(Debug, Clone, Copy, PartialEq, Eq)]
pub enum PathStyle {
    /// `/` separates components; there is no prefix; names compare exactly.
    Unix,
    /// `\` and `/` separate components; a drive or UNC prefix may come first;
    /// names compare without regard to ASCII case.
    Windows,
}

/// Whether `c` separates components under `style`.
pub open spec fn is_separator(style: PathStyle, c: char) -> bool {
    match style {
        PathStyle::Unix => c == '/',
        PathStyle::Windows => c == '/' || c == '\\',
    }
}

/// The separator that `style` writes: `/` on Unix, `\` on Windows.
pub open spec fn main_separator(style: PathStyle) -> char {
    match style {
        PathStyle::Unix => '/',
        PathStyle::Windows => '\\',
    }
}

/// The root component under `style`.
pub open spec fn root_component(style: PathStyle) -> Seq<char> {
    seq![main_separator(style)]
}

/// An ASCII letter.
pub open spec fn is_ascii_letter(c: char) -> bool {
    ('a' <= c && c <= 'z') || ('A' <= c && c <= 'Z')
}

/// Position of the first separator in `t`, or `t.len()` when there is none.
pub open spec fn first_separator(style: PathStyle, t: Seq<char>) -> nat
    decreases t.len(),
{
    if t.len() == 0 {
        0
    } else if is_separator(style, t[0]) {
        0
    } else {
        1 + first_separator(style, t.drop_first())
    }
}

/// A segment between two separators names a component unless it is empty
/// or `.`.
pub open spec fn names_component(seg: Seq<char>) -> bool {
    seg.len() > 0 && seg != seq!['.']
}

/// The components named by the segments of `t`, read from the left.
pub open spec fn body_components(style: PathStyle, t: Seq<char>) -> Seq<Seq<char>>
    decreases t.len(),
{
    let i = first_separator(style, t);
    let seg = t.take(i as int);
    let rest = if i < t.len() {
        body_components(style, t.skip(i + 1 as int))
    } else {
        Seq::empty()
    };
    if names_component(seg) {
        seq![seg] + rest
    } else {
        rest
    }
}

/// The length of the Windows prefix at the start of `s`, 0 when there is
/// none: 2 for a drive `C:`, and for `\\server\share` (either separator)
/// the length up to the end of the share name, when both names are
/// non-empty.
pub open spec fn windows_prefix_len(s: Seq<char>) -> nat {
    let w = PathStyle::Windows;
    if s.len() >= 2 && is_ascii_letter(s[0]) && s[1] == ':' {
        2
    } else if s.len() >= 2 && is_separator(w, s[0]) && is_separator(w, s[1]) {
        let server_end = 2 + first_separator(w, s.skip(2));
        if server_end > 2 && server_end < s.len() {
            let share_end = server_end + 1 + first_separator(w, s.skip(server_end + 1 as int));
            if share_end > server_end + 1 {
                share_end
            } else {
                0
            }
        } else {
            0
        }
    } else {
        0
    }
}

/// The length of the prefix of `s` under `style`.
pub open spec fn prefix_len(style: PathStyle, s: Seq<char>) -> nat {
    match style {
        PathStyle::Unix => 0,
        PathStyle::Windows => windows_prefix_len(s),
    }
}

/// The components of `rest`, the part of a path after its prefix.
pub open spec fn components_after_prefix(style: PathStyle, rest: Seq<char>) -> Seq<Seq<char>> {
    if rest.len() > 0 && is_separator(style, rest[0]) {
        seq![root_component(style)] + body_components(style, rest.skip(1))
    } else if rest.len() > 0 && rest[0] == '.' && (rest.len() == 1 || is_separator(style, rest[1])) {
        seq![seq!['.']] + body_components(style, rest.skip(1))
    } else {
        body_components(style, rest)
    }
}

/// Whether `s` is a share prefix (`\\server\share`, not a drive and not a
/// `\\?\` verbatim prefix) with nothing after it: such a prefix brings a
/// root of its own.
pub open spec fn has_implicit_root(style: PathStyle, s: Seq<char>) -> bool {
    let p = prefix_len(style, s);
    p > 2 && p == s.len() && s[2] != '?'
}

/// The components of the path `s` under `style`.
pub open spec fn components_of(style: PathStyle, s: Seq<char>) -> Seq<Seq<char>> {
    let p = prefix_len(style, s);
    if p > 0 {
        seq![s.take(p as int)] + (if has_implicit_root(style, s) {
            seq![root_component(style)]
        } else {
            components_after_prefix(style, s.skip(p as int))
        })
    } else {
        components_after_prefix(style, s)
    }
}

/// A Unix path has a root when it begins with `/`.
pub open spec fn has_root(s: Seq<char>) -> bool {
    s.len() > 0 && s[0] == '/'
}

/// Whether `s` is absolute: on Unix, when it has a root; on Windows, when
/// it has a prefix and a root (a UNC prefix always brings a root).
pub open spec fn is_absolute(style: PathStyle, s: Seq<char>) -> bool {
    match style {
        PathStyle::Unix => has_root(s),
        PathStyle::Windows => {
            let p = windows_prefix_len(s);
            p > 0 && ((p < s.len() && is_separator(PathStyle::Windows, s[p as int])) || p != 2)
        },
    }
}

/// The character code of `c` with ASCII upper-case letters folded to lower
/// case.
pub open spec fn ascii_folded(c: char) -> int {
    let x = c as int;
    if 65 <= x && x <= 90 {
        x + 32
    } else {
        x
    }
}

/// Whether two components match when paths are compared for a shared
/// suffix: exactly on Unix, without regard to ASCII case on Windows.
pub open spec fn same_component(style: PathStyle, a: Seq<char>, b: Seq<char>) -> bool {
    match style {
        PathStyle::Unix => a == b,
        PathStyle::Windows => a.len() == b.len() && forall|i: int|
            0 <= i < a.len() ==> #[trigger] ascii_folded(a[i]) == ascii_folded(b[i]),
    }
}

/// Whether `c` is a drive prefix such as `C:`.
pub open spec fn is_drive(c: Seq<char>) -> bool {
    c.len() == 2 && is_ascii_letter(c[0]) && c[1] == ':'
}

/// Whether two components are the same as a path comparison sees them:
/// exactly, except that on Windows the letter of a drive matches without
/// regard to case (`c:` is `C:`).
pub open spec fn same_path_component(style: PathStyle, a: Seq<char>, b: Seq<char>) -> bool {
    match style {
        PathStyle::Unix => a == b,
        PathStyle::Windows => a == b || (is_drive(a) && is_drive(b) && ascii_folded(a[0])
            == ascii_folded(b[0])),
    }
}

/// Whether the components `a` and `b` make the same path, compared one by
/// one as `same_path_component` compares them.
pub open spec fn same_path(style: PathStyle, a: Seq<Seq<char>>, b: Seq<Seq<char>>) -> bool {
    a.len() == b.len() && forall|i: int|
        0 <= i < a.len() ==> #[trigger] same_path_component(style, a[i], b[i])
}

/// Whether the components `b` begin with the path `a`, compared one by one
/// as `same_path_component` compares them.
pub open spec fn leads(style: PathStyle, a: Seq<Seq<char>>, b: Seq<Seq<char>>) -> bool {
    a.len() <= b.len() && forall|i: int|
        0 <= i < a.len() ==> #[trigger] same_path_component(style, a[i], b[i])
}

/// Whether the components `a` and `b` match one by one as
/// `same_component` compares them: exactly on Unix, without regard to
/// ASCII case on Windows.
pub open spec fn alike(style: PathStyle, a: Seq<Seq<char>>, b: Seq<Seq<char>>) -> bool {
    a.len() == b.len() && forall|i: int|
        0 <= i < a.len() ==> #[trigger] same_component(style, a[i], b[i])
}

/// Under Unix rules `b` begins with the path `a` when `a` is a prefix of it.
pub proof fn lemma_leads_unix(a: Seq<Seq<char>>, b: Seq<Seq<char>>)
    ensures
        leads(PathStyle::Unix, a, b) == a.is_prefix_of(b),
{
    if leads(PathStyle::Unix, a, b) {
        assert forall|i: int| 0 <= i < a.len() implies a[i] == b[i] by {
            assert(same_path_component(PathStyle::Unix, a[i], b[i]));
        }
        assert(a =~= b.subrange(0, a.len() as int));
    }
    if a.is_prefix_of(b) {
        assert forall|i: int| 0 <= i < a.len() implies #[trigger] same_path_component(
            PathStyle::Unix,
            a[i],
            b[i],
        ) by {
            assert(a[i] == b.subrange(0, a.len() as int)[i]);
        }
    }
}

pub proof fn lemma_first_separator_at(style: PathStyle, t: Seq<char>, k: int)
    requires
        0 <= k <= t.len(),
        forall|j: int| 0 <= j < k ==> !is_separator(style, t[j]),
        k == t.len() || is_separator(style, t[k]),
    ensures
        first_separator(style, t) == k,
    decreases k,
{
    if k > 0 {
        let u = t.drop_first();
        assert forall|j: int| 0 <= j < k - 1 implies !is_separator(style, u[j]) by {
            assert(u[j] == t[j + 1]);
        }
        if k < t.len() {
            assert(u[k - 1] == t[k]);
        }
        lemma_first_separator_at(style, u, k - 1);
    }
}

pub proof fn lemma_first_separator_props(style: PathStyle, t: Seq<char>)
    ensures
        first_separator(style, t) <= t.len(),
        forall|j: int| 0 <= j < first_separator(style, t) ==> !is_separator(style, t[j]),
        first_separator(style, t) < t.len() ==> is_separator(
            style,
            t[first_separator(style, t) as int],
        ),
    decreases t.len(),
{
    if t.len() > 0 && !is_separator(style, t[0]) {
        let u = t.drop_first();
        lemma_first_separator_props(style, u);
        assert forall|j: int| 0 <= j < first_separator(style, t) implies !is_separator(
            style,
            t[j],
        ) by {
            if j > 0 {
                assert(t[j] == u[j - 1]);
            }
        }
        if first_separator(style, t) < t.len() {
            assert(t[first_separator(style, t) as int] == u[first_separator(style, u) as int]);
        }
    }
}

/// Splitting off the first segment of `t`, which ends at the separator `k`.
pub proof fn lemma_body_split(style: PathStyle, t: Seq<char>, k: int)
    requires
        0 <= k < t.len(),
        forall|j: int| 0 <= j < k ==> !is_separator(style, t[j]),
        is_separator(style, t[k]),
    ensures
        body_components(style, t) == (if names_component(t.take(k)) {
            seq![t.take(k)]
        } else {
            Seq::<Seq<char>>::empty()
        }) + body_components(style, t.skip(k + 1)),
{
    lemma_first_separator_at(style, t, k);
    if !names_component(t.take(k)) {
        assert(Seq::<Seq<char>>::empty() + body_components(style, t.skip(k + 1)) =~= body_components(
            style,
            t.skip(k + 1),
        ));
    }
}

/// A segment with no separator is its own last segment.
pub proof fn lemma_body_last(style: PathStyle, t: Seq<char>)
    requires
        forall|j: int| 0 <= j < t.len() ==> !is_separator(style, t[j]),
    ensures
        body_components(style, t) == (if names_component(t) {
            seq![t]
        } else {
            Seq::<Seq<char>>::empty()
        }),
{
    lemma_first_separator_at(style, t, t.len() as int);
    assert(t.take(t.len() as int) =~= t);
    if names_component(t) {
        assert(seq![t] + Seq::<Seq<char>>::empty() =~= seq![t]);
    }
}

/// Whether `c` separates components under `style`.
pub fn is_separator_char(style: PathStyle, c: char) -> (b: bool)
    ensures
        b == is_separator(style, c),
{
    match style {
        PathStyle::Unix => c == '/',
        PathStyle::Windows => c == '/' || c == '\\',
    }
}

/// Whether `c` is an ASCII letter.
pub fn is_ascii_letter_char(c: char) -> (b: bool)
    ensures
        b == is_ascii_letter(c),
{
    ('a' <= c && c <= 'z') || ('A' <= c && c <= 'Z')
}

/// The position of the first separator in `path` at or after `from`, or
/// the length of `path` when there is none.
fn find_separator(style: PathStyle, path: &str, from: usize) -> (end: usize)
    requires
        from <= path@.len(),
    ensures
        end == from + first_separator(style, path@.skip(from as int)),
        end <= path@.len(),
{
    let n = path.unicode_len();
    let mut i = from;
    while i < n && !is_separator_char(style, path.get_char(i))
        invariant
            n == path@.len(),
            from <= i <= n,
            forall|j: int| from <= j < i ==> !is_separator(style, path@[j]),
        decreases n - i,
    {
        i += 1;
    }
    let ghost t = path@.skip(from as int);
    proof {
        assert forall|j: int| 0 <= j < i - from implies !is_separator(style, t[j]) by {
            assert(t[j] == path@[from + j]);
        }
        if i < n {
            assert(t[i - from] == path@[i as int]);
        }
        lemma_first_separator_at(style, t, i - from);
    }
    i
}

/// The length of the Windows prefix at the start of `path`.
pub fn windows_prefix_length(path: &str) -> (p: usize)
    ensures
        p == windows_prefix_len(path@),
        p <= path@.len(),
{
    let w = PathStyle::Windows;
    let n = path.unicode_len();
    if n >= 2 && is_ascii_letter_char(path.get_char(0)) && path.get_char(1) == ':' {
        return 2;
    }
    if n >= 2 && is_separator_char(w, path.get_char(0)) && is_separator_char(w, path.get_char(1)) {
        let server_end = find_separator(w, path, 2);
        if server_end > 2 && server_end < n {
            let share_end = find_separator(w, path, server_end + 1);
            if share_end > server_end + 1 {
                return share_end;
            }
        }
    }
    0
}

/// Whether the segment `path[start..end]` names a component.
fn segment_names_component(path: &str, start: usize, end: usize) -> (b: bool)
    requires
        start <= end <= path@.len(),
    ensures
        b == names_component(path@.subrange(start as int, end as int)),
{
    if end == start {
        assert(path@.subrange(start as int, end as int).len() == 0);
        false
    } else if end == start + 1 && path.get_char(start) == '.' {
        assert(path@.subrange(start as int, end as int) =~= seq!['.']);
        false
    } else {
        if end == start + 1 {
            assert(path@.subrange(start as int, end as int)[0] != '.');
        } else {
            assert(path@.subrange(start as int, end as int).len() != 1);
        }
        true
    }
}

/// Appends to `comps` the components of `path` from position `start` on.
fn push_body(style: PathStyle, path: &str, start: usize, comps: &mut Vec<String>)
    requires
        start <= path@.len(),
    ensures
        final(comps).deep_view() == old(comps).deep_view() + body_components(
            style,
            path@.skip(start as int),
        ),
{
    let n = path.unicode_len();
    let ghost s = path@;
    let ghost initial = comps.deep_view();
    let mut seg_start = start;
    let mut i: usize = start;
    assert(s.subrange(start as int, n as int) =~= s.skip(start as int));
    assert(comps.deep_view() + body_components(style, s.subrange(start as int, n as int))
        =~= initial + body_components(style, s.skip(start as int)));
    while i < n
        invariant
            n == s.len(),
            s == path@,
            start <= seg_start <= i <= n,
            forall|j: int| seg_start <= j < i ==> !is_separator(style, s[j]),
            comps.deep_view() + body_components(style, s.subrange(seg_start as int, n as int))
                == initial + body_components(style, s.skip(start as int)),
        decreases n - i,
    {
        if is_separator_char(style, path.get_char(i)) {
            let ghost t = s.subrange(seg_start as int, n as int);
            let ghost k = i - seg_start;
            proof {
                assert forall|j: int| 0 <= j < k implies !is_separator(style, t[j]) by {
                    assert(t[j] == s[seg_start + j]);
                }
                assert(t[k] == s[i as int]);
                lemma_body_split(style, t, k);
                assert(t.take(k) =~= s.subrange(seg_start as int, i as int));
                assert(t.skip(k + 1) =~= s.subrange(i + 1, n as int));
            }
            let ghost before = comps.deep_view();
            if segment_names_component(path, seg_start, i) {
                let seg = String::from_str(path.substring_char(seg_start, i));
                comps.push(seg);
                assert(comps.deep_view() =~= before.push(s.subrange(seg_start as int, i as int)));
                assert(comps.deep_view() + body_components(style, s.subrange(i + 1, n as int))
                    =~= before + (seq![s.subrange(seg_start as int, i as int)] + body_components(
                    style,
                    s.subrange(i + 1, n as int),
                )));
            } else {
                assert(before + (Seq::<Seq<char>>::empty() + body_components(
                    style,
                    s.subrange(i + 1, n as int),
                )) =~= before + body_components(style, s.subrange(i + 1, n as int)));
            }
            seg_start = i + 1;
        }
        i += 1;
    }
    let ghost t = s.subrange(seg_start as int, n as int);
    proof {
        assert forall|j: int| 0 <= j < t.len() implies !is_separator(style, t[j]) by {
            assert(t[j] == s[seg_start + j]);
        }
        lemma_body_last(style, t);
    }
    let ghost before = comps.deep_view();
    if segment_names_component(path, seg_start, n) {
        let seg = String::from_str(path.substring_char(seg_start, n));
        comps.push(seg);
        assert(comps.deep_view() =~= before + seq![t]);
    } else {
        assert(before + Seq::<Seq<char>>::empty() =~= before);
    }
}

/// The root component written as a string.
fn root_string(style: PathStyle) -> (r: String)
    ensures
        r@ == root_component(style),
{
    match style {
        PathStyle::Unix => {
            proof {
                reveal_strlit("/");
            }
            let r = String::from_str("/");
            assert(r@ =~= seq!['/']);
            r
        },
        PathStyle::Windows => {
            proof {
                reveal_strlit("\\");
            }
            let r = String::from_str("\\");
            assert(r@ =~= seq!['\\']);
            r
        },
    }
}

/// Splits `path` into its components, as `Path::components` does on the
/// platform whose rules `style` names.
pub fn path_components(style: PathStyle, path: &str) -> (comps: Vec<String>)
    ensures
        comps.deep_view() == components_of(style, path@),
{
    let n = path.unicode_len();
    let ghost s = path@;
    let p = match style {
        PathStyle::Unix => 0,
        PathStyle::Windows => windows_prefix_length(path),
    };
    let mut comps: Vec<String> = Vec::new();
    if p > 0 {
        comps.push(String::from_str(path.substring_char(0, p)));
        assert(comps.deep_view() =~= seq![s.take(p as int)]);
    } else {
        assert(comps.deep_view() =~= Seq::<Seq<char>>::empty());
    }
    if p > 2 && p == n && path.get_char(2) != '?' {
        let ghost prefix = comps.deep_view();
        comps.push(root_string(style));
        assert(comps.deep_view() =~= prefix + seq![root_component(style)]);
        return comps;
    }
    let ghost head = comps.deep_view();
    let ghost rest = s.skip(p as int);
    let start: usize;
    if p < n && is_separator_char(style, path.get_char(p)) {
        comps.push(root_string(style));
        start = p + 1;
        assert(rest.skip(1) =~= s.skip(start as int));
        assert(comps.deep_view() =~= head + seq![root_component(style)]);
    } else if p < n && path.get_char(p) == '.' && (p + 1 == n || is_separator_char(
        style,
        path.get_char(p + 1),
    )) {
        proof {
            reveal_strlit(".");
        }
        let cur = String::from_str(".");
        assert(cur@ =~= seq!['.']);
        comps.push(cur);
        start = p + 1;
        assert(rest.skip(1) =~= s.skip(start as int));
        assert(comps.deep_view() =~= head + seq![seq!['.']]);
    } else {
        start = p;
    }
    let ghost mid = comps.deep_view();
    push_body(style, path, start, &mut comps);
    assert(comps.deep_view() =~= head + components_after_prefix(style, rest));
    if p == 0 {
        assert(rest =~= s);
        assert(head + components_after_prefix(style, rest) =~= components_after_prefix(style, s));
    }
    comps
}

/// Whether two components match for a shared suffix: exactly on Unix,
/// without regard to ASCII case on Windows.
pub fn components_equal(style: PathStyle, a: &String, b: &String) -> (eq: bool)
    ensures
        eq == same_component(style, a@, b@),
{
    match style {
        PathStyle::Unix => *a == *b,
        PathStyle::Windows => {
            let sa = a.as_str();
            let sb = b.as_str();
            let n = sa.unicode_len();
            if n != sb.unicode_len() {
                return false;
            }
            let mut i: usize = 0;
            while i < n
                invariant
                    n == a@.len(),
                    n == b@.len(),
                    sa@ == a@,
                    sb@ == b@,
                    i <= n,
                    forall|j: int| 0 <= j < i ==> #[trigger] ascii_folded(a@[j]) == ascii_folded(
                        b@[j],
                    ),
                decreases n - i,
            {
                let x = sa.get_char(i) as u32;
                let y = sb.get_char(i) as u32;
                let fx = if 65 <= x && x <= 90 {
                    x + 32
                } else {
                    x
                };
                let fy = if 65 <= y && y <= 90 {
                    y + 32
                } else {
                    y
                };
                assert(fx == ascii_folded(a@[i as int]));
                assert(fy == ascii_folded(b@[i as int]));
                if fx != fy {
                    return false;
                }
                i += 1;
            }
            true
        },
    }
}

/// Whether `a` is a drive prefix such as `C:`.
fn is_drive_string(a: &String) -> (b: bool)
    ensures
        b == is_drive(a@),
{
    let s = a.as_str();
    s.unicode_len() == 2 && is_ascii_letter_char(s.get_char(0)) && s.get_char(1) == ':'
}

/// Whether two components are the same as a path comparison sees them.
pub fn same_path_components(style: PathStyle, a: &String, b: &String) -> (eq: bool)
    ensures
        eq == same_path_component(style, a@, b@),
{
    if *a == *b {
        return true;
    }
    match style {
        PathStyle::Unix => false,
        PathStyle::Windows => {
            if is_drive_string(a) && is_drive_string(b) {
                let x = a.as_str().get_char(0) as u32;
                let y = b.as_str().get_char(0) as u32;
                let fx = if 65 <= x && x <= 90 {
                    x + 32
                } else {
                    x
                };
                let fy = if 65 <= y && y <= 90 {
                    y + 32
                } else {
                    y
                };
                fx == fy
            } else {
                false
            }
        },
    }
}

/// Whether the components `whole` begin with the path `prefix`, compared one
/// by one as a path comparison sees them.
pub fn starts_with_components(style: PathStyle, prefix: &Vec<String>, whole: &Vec<String>) -> (b:
    bool)
    ensures
        b == leads(style, prefix.deep_view(), whole.deep_view()),
{
    let ghost p = prefix.deep_view();
    let ghost w = whole.deep_view();
    if prefix.len() > whole.len() {
        return false;
    }
    let mut i: usize = 0;
    while i < prefix.len()
        invariant
            p == prefix.deep_view(),
            w == whole.deep_view(),
            prefix.len() <= whole.len(),
            i <= prefix.len(),
            forall|j: int| 0 <= j < i ==> #[trigger] same_path_component(style, p[j], w[j]),
        decreases prefix.len() - i,
    {
        assert(p[i as int] == prefix[i as int]@);
        assert(w[i as int] == whole[i as int]@);
        if !same_path_components(style, &prefix[i], &whole[i]) {
            return false;
        }
        i += 1;
    }
    true
}

/// Whether `a` and `b` are the same path, compared component by component
/// as the standard library's `Path` comparison does (so `/a//b/` and
/// `/a/./b` are the same path, and on Windows `c:\x` and `C:\x` are too).
pub fn paths_equal(style: PathStyle, a: &str, b: &str) -> (eq: bool)
    ensures
        eq == same_path(style, components_of(style, a@), components_of(style, b@)),
{
    let ac = path_components(style, a);
    let bc = path_components(style, b);
    if ac.len() != bc.len() {
        assert(ac.deep_view().len() != bc.deep_view().len());
        return false;
    }
    starts_with_components(style, &ac, &bc)
}

/// Whether `a` and `b` name the same path when their components are
/// compared as `components_equal` compares them: exactly on Unix, without
/// regard to ASCII case on Windows.
pub fn paths_alike(style: PathStyle, a: &str, b: &str) -> (eq: bool)
    ensures
        eq == alike(style, components_of(style, a@), components_of(style, b@)),
{
    let ac = path_components(style, a);
    let bc = path_components(style, b);
    let ghost av = ac.deep_view();
    let ghost bv = bc.deep_view();
    if ac.len() != bc.len() {
        assert(av.len() != bv.len());
        return false;
    }
    let mut i: usize = 0;
    while i < ac.len()
        invariant
            av == ac.deep_view(),
            bv == bc.deep_view(),
            av == components_of(style, a@),
            bv == components_of(style, b@),
            ac.len() == bc.len(),
            i <= ac.len(),
            forall|j: int| 0 <= j < i ==> #[trigger] same_component(style, av[j], bv[j]),
        decreases ac.len() - i,
    {
        assert(av[i as int] == ac[i as int]@);
        assert(bv[i as int] == bc[i as int]@);
        if !components_equal(style, &ac[i], &bc[i]) {
            return false;
        }
        i += 1;
    }
    true
}

/// Whether `path` is relative, that is, not absolute under `style`.
pub fn is_relative(style: PathStyle, path: &str) -> (b: bool)
    ensures
        b == !is_absolute(style, path@),
{
    match style {
        PathStyle::Unix => !(path.unicode_len() > 0 && path.get_char(0) == '/'),
        PathStyle::Windows => {
            let p = windows_prefix_length(path);
            if p == 0 {
                return true;
            }
            let rooted = p < path.unicode_len() && is_separator_char(
                PathStyle::Windows,
                path.get_char(p),
            );
            !(rooted || p != 2)
        },
    }
}

} // verus!
