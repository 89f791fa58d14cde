//! When the operations must find something: a divergence point wherever
//! two paths share a tail and differ in front of it, a mapping wherever the
//! working directories diverge that way, and the candidate wherever a
//! translation's check passes. And when they must not: no mapping from a
//! `$PWD` that does not resolve to the working directory.
use vstd::prelude::*;

use crate::components::{
    alike, components_of, is_absolute, leads, root_component, same_component, same_path,
    same_path_component, PathStyle,
};
use crate::context::{
    compared_form, cwd_detection_of, detection_of, is_bare_root, settled, translation_target_of,
    TranslationDirection,
};
use crate::divergence::{divergence_paths, from_end, lemma_common_suffix_len_is, shared_component};
use crate::render::rendered;

verus! {

/// The last `n` components of `c` and of `l` match one by one, none of
/// them is the root, and the components in front of them (where both
/// exist) do not match that way: a longest shared tail of `n` names.
pub open spec fn shares_tail(style: PathStyle, c: Seq<Seq<char>>, l: Seq<Seq<char>>, n: nat) -> bool {
    &&& n <= c.len()
    &&& n <= l.len()
    &&& forall|j: int|
        0 <= j < n ==> #[trigger] same_component(style, from_end(c, j), from_end(l, j)) && from_end(c, j)
            != root_component(style) && from_end(l, j) != root_component(style)
    &&& n == c.len() || n == l.len() || !same_component(style, from_end(c, n as int), from_end(l, n as int))
        || from_end(c, n as int) == root_component(style)
}

proof fn lemma_tail_is_common_suffix(style: PathStyle, c: Seq<Seq<char>>, l: Seq<Seq<char>>, n: nat)
    requires
        shares_tail(style, c, l, n),
    ensures
        crate::divergence::common_suffix_len(style, c, l) == n,
{
    assert forall|j: int| 0 <= j < n implies #[trigger] shared_component(
        style,
        from_end(c, j),
        from_end(l, j),
    ) by {
        assert(same_component(style, from_end(c, j), from_end(l, j)));
    }
    lemma_common_suffix_len_is(style, c, l, n);
}

/// Two paths that share a non-empty tail of names, and whose parts in front
/// of it are not the same path, diverge exactly there: the result is those
/// two front parts, written as paths.
pub proof fn law_divergence_found(style: PathStyle, canonical: Seq<char>, logical: Seq<char>, n: nat)
    requires
        n > 0,
        shares_tail(style, components_of(style, canonical), components_of(style, logical), n),
        !same_path(
            style,
            components_of(style, canonical).take(components_of(style, canonical).len() - n),
            components_of(style, logical).take(components_of(style, logical).len() - n),
        ),
    ensures
        divergence_paths(style, canonical, logical) == Some(
            (
                rendered(
                    style,
                    components_of(style, canonical).take(components_of(style, canonical).len() - n),
                ),
                rendered(
                    style,
                    components_of(style, logical).take(components_of(style, logical).len() - n),
                ),
            ),
        ),
{
    lemma_tail_is_common_suffix(style, components_of(style, canonical), components_of(style, logical), n);
}

/// Two paths that share no name at their ends do not diverge anywhere.
pub proof fn law_no_shared_tail_no_divergence(style: PathStyle, canonical: Seq<char>, logical: Seq<char>)
    requires
        shares_tail(style, components_of(style, canonical), components_of(style, logical), 0),
    ensures
        divergence_paths(style, canonical, logical) is None,
{
    lemma_tail_is_common_suffix(style, components_of(style, canonical), components_of(style, logical), 0);
}

/// Under Unix rules, a mapping is detected only from a non-empty `$PWD`
/// that is not the same path as the working directory and that resolved to
/// the working directory; a `$PWD` that does not resolve, or resolves
/// elsewhere, gives no mapping.
pub proof fn law_detection_needs_pwd_resolving_to_cwd(
    pwd: Option<Seq<char>>,
    cwd: Seq<char>,
    pwd_resolved: Option<Seq<char>>,
)
    ensures
        detection_of(pwd, cwd, pwd_resolved) is Some ==> {
            let u = PathStyle::Unix;
            &&& pwd matches Some(p)
            &&& p.len() > 0
            &&& !same_path(u, components_of(u, p), components_of(u, cwd))
            &&& pwd_resolved matches Some(r)
            &&& same_path(u, components_of(u, r), components_of(u, cwd))
        },
        pwd_resolved is None ==> detection_of(pwd, cwd, pwd_resolved) is None,
        (pwd_resolved matches Some(r) && !same_path(
            PathStyle::Unix,
            components_of(PathStyle::Unix, r),
            components_of(PathStyle::Unix, cwd),
        )) ==> detection_of(pwd, cwd, pwd_resolved) is None,
{
}

/// Under Unix rules, a `$PWD` that differs from the working directory,
/// resolves to it, and shares a non-empty tail of names with it, gives the
/// mapping from the working directory's front part to `$PWD`'s.
pub proof fn law_detection_found(pwd: Seq<char>, cwd: Seq<char>, resolved: Seq<char>, n: nat)
    requires
        pwd.len() > 0,
        !same_path(
            PathStyle::Unix,
            components_of(PathStyle::Unix, pwd),
            components_of(PathStyle::Unix, cwd),
        ),
        same_path(
            PathStyle::Unix,
            components_of(PathStyle::Unix, resolved),
            components_of(PathStyle::Unix, cwd),
        ),
        n > 0,
        shares_tail(PathStyle::Unix, components_of(PathStyle::Unix, cwd), components_of(PathStyle::Unix, pwd), n),
        !same_path(
            PathStyle::Unix,
            components_of(PathStyle::Unix, cwd).take(components_of(PathStyle::Unix, cwd).len() - n),
            components_of(PathStyle::Unix, pwd).take(components_of(PathStyle::Unix, pwd).len() - n),
        ),
    ensures
        detection_of(Some(pwd), cwd, Some(resolved)) == Some(
            (
                rendered(
                    PathStyle::Unix,
                    components_of(PathStyle::Unix, cwd).take(components_of(PathStyle::Unix, cwd).len() - n),
                ),
                rendered(
                    PathStyle::Unix,
                    components_of(PathStyle::Unix, pwd).take(components_of(PathStyle::Unix, pwd).len() - n),
                ),
                PathStyle::Unix,
            ),
        ),
{
    law_divergence_found(PathStyle::Unix, cwd, pwd, n);
}

/// Under Windows rules, a working directory that shares a non-empty tail of
/// names with its resolved form, with front parts that are not the same
/// path, gives the mapping from the resolved front part to the working
/// directory's, on one drive or across drives and shares alike.
pub proof fn law_cwd_detection_found(cwd: Seq<char>, canonical: Seq<char>, n: nat)
    requires
        n > 0,
        shares_tail(PathStyle::Windows, components_of(PathStyle::Windows, canonical), components_of(PathStyle::Windows, cwd), n),
        !same_path(
            PathStyle::Windows,
            components_of(PathStyle::Windows, canonical).take(components_of(PathStyle::Windows, canonical).len() - n),
            components_of(PathStyle::Windows, cwd).take(components_of(PathStyle::Windows, cwd).len() - n),
        ),
    ensures
        cwd_detection_of(cwd, canonical) == Some(
            (
                rendered(
                    PathStyle::Windows,
                    components_of(PathStyle::Windows, canonical).take(components_of(PathStyle::Windows, canonical).len() - n),
                ),
                rendered(
                    PathStyle::Windows,
                    components_of(PathStyle::Windows, cwd).take(components_of(PathStyle::Windows, cwd).len() - n),
                ),
                PathStyle::Windows,
            ),
        ),
{
    let w = PathStyle::Windows;
    let c = components_of(w, canonical);
    let l = components_of(w, cwd);
    // The working directory ends in a name, so it is not a bare root.
    assert(from_end(l, 0) == l[l.len() - 1]);
    assert(same_component(w, from_end(c, 0), from_end(l, 0)));
    assert(from_end(l, 0) != root_component(w));
    assert(!is_bare_root(l));
    // Paths that were the same path would have front parts that are too.
    if same_path(w, l, c) {
        let cp = c.take(c.len() - n);
        let lp = l.take(l.len() - n);
        assert forall|i: int| 0 <= i < cp.len() implies #[trigger] same_path_component(w, cp[i], lp[i]) by {
            assert(same_path_component(w, l[i], c[i]));
            assert(cp[i] == c[i] && lp[i] == l[i]);
        }
        assert(same_path(w, cp, lp));
    }
    law_divergence_found(w, canonical, cwd, n);
}

/// Under Windows rules, a working directory at the root of a drive or share
/// (a subst or mapped drive entered at its root) maps the whole of its
/// resolved form, when that is an absolute path other than the working
/// directory, to that root.
pub proof fn law_cwd_at_drive_root_maps_whole_path(cwd: Seq<char>, canonical: Seq<char>)
    requires
        is_bare_root(components_of(PathStyle::Windows, cwd)),
        is_absolute(PathStyle::Windows, canonical),
        !same_path(
            PathStyle::Windows,
            components_of(PathStyle::Windows, cwd),
            components_of(PathStyle::Windows, canonical),
        ),
    ensures
        cwd_detection_of(cwd, canonical) == Some(
            (
                rendered(PathStyle::Windows, components_of(PathStyle::Windows, canonical)),
                rendered(PathStyle::Windows, components_of(PathStyle::Windows, cwd)),
                PathStyle::Windows,
            ),
        ),
{
}

/// A translation whose input and candidate both resolved, to the same path
/// as the check compares them, gives the candidate, whatever kind of prefix
/// the paths have.
pub proof fn law_agreeing_check_takes_candidate(
    style: PathStyle,
    path: Seq<char>,
    candidate: Seq<char>,
    path_resolved: Seq<char>,
    candidate_resolved: Seq<char>,
)
    requires
        alike(
            style,
            components_of(style, compared_form(style, path_resolved)),
            components_of(style, compared_form(style, candidate_resolved)),
        ),
    ensures
        settled(style, path, candidate, Some(path_resolved), Some(candidate_resolved)) == candidate,
{
}

/// An absolute path that begins with the source prefix of a mapping has a
/// candidate translation, whatever kind of prefix the mapping has.
pub proof fn law_prefixed_path_has_candidate(
    canonical_prefix: Seq<char>,
    logical_prefix: Seq<char>,
    style: PathStyle,
    path: Seq<char>,
    direction: TranslationDirection,
)
    requires
        is_absolute(style, path),
        leads(
            style,
            components_of(
                style,
                match direction {
                    TranslationDirection::ToLogical => canonical_prefix,
                    TranslationDirection::ToCanonical => logical_prefix,
                },
            ),
            components_of(style, compared_form(style, path)),
        ),
    ensures
        translation_target_of(Some((canonical_prefix, logical_prefix, style)), path, direction) is Some,
{
}

} // verus!
