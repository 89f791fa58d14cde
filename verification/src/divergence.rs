//! Where a canonical path and a logical path for the same place diverge:
//! the longest common suffix of their components, and the two prefixes in
//! front of it. The root is never part of the shared suffix: it stays with
//! the prefix in front of it, so a drive keeps its `\` (`Z:\`, not `Z:`).
use vstd::prelude::*;

use crate::components::{
    components_equal, components_of, path_components, root_component, same_component,
    same_path, same_path_component, same_path_components, PathStyle,
};
use crate::render::{is_root_component, render_components, rendered};

verus! {

/// The component `j` places before the last one of `a`.
pub open spec fn from_end(a: Seq<Seq<char>>, j: int) -> Seq<char> {
    a[a.len() - 1 - j]
}

/// Whether `a` and `b` can stand in a shared suffix: they match as `style`
/// compares components, and they are not the root.
pub open spec fn shared_component(style: PathStyle, a: Seq<char>, b: Seq<char>) -> bool {
    same_component(style, a, b) && a != root_component(style)
}

/// The number of trailing components that `a` and `b` share.
pub open spec fn common_suffix_len(style: PathStyle, a: Seq<Seq<char>>, b: Seq<Seq<char>>) -> nat
    decreases a.len(),
{
    if a.len() == 0 || b.len() == 0 || !shared_component(style, a.last(), b.last()) {
        0
    } else {
        1 + common_suffix_len(style, a.drop_last(), b.drop_last())
    }
}

/// The prefixes of `c` and `l` in front of their longest common suffix, when
/// that suffix is non-empty and the prefixes are not the same path.
pub open spec fn divergence(style: PathStyle, c: Seq<Seq<char>>, l: Seq<Seq<char>>) -> Option<
    (Seq<Seq<char>>, Seq<Seq<char>>),
> {
    let k = common_suffix_len(style, c, l);
    let cp = c.take(c.len() - k);
    let lp = l.take(l.len() - k);
    if k == 0 || same_path(style, cp, lp) {
        None
    } else {
        Some((cp, lp))
    }
}

/// The divergence of two paths, with each prefix written as a path.
pub open spec fn divergence_paths(style: PathStyle, canonical: Seq<char>, logical: Seq<char>) -> Option<
    (Seq<char>, Seq<char>),
> {
    match divergence(style, components_of(style, canonical), components_of(style, logical)) {
        Some(p) => Some((rendered(style, p.0), rendered(style, p.1))),
        None => None,
    }
}

pub proof fn lemma_common_suffix_len_bound(style: PathStyle, a: Seq<Seq<char>>, b: Seq<Seq<char>>)
    ensures
        common_suffix_len(style, a, b) <= a.len(),
        common_suffix_len(style, a, b) <= b.len(),
        forall|j: int|
            0 <= j < common_suffix_len(style, a, b) ==> #[trigger] shared_component(style, from_end(a, j), from_end(b, j)),
        common_suffix_len(style, a, b) < a.len() && common_suffix_len(style, a, b) < b.len() ==> !shared_component(
            style,
            from_end(a, common_suffix_len(style, a, b) as int),
            from_end(b, common_suffix_len(style, a, b) as int),
        ),
    decreases a.len(),
{
    if !(a.len() == 0 || b.len() == 0 || !shared_component(style, a.last(), b.last())) {
        let a1 = a.drop_last();
        let b1 = b.drop_last();
        lemma_common_suffix_len_bound(style, a1, b1);
        let k = common_suffix_len(style, a, b);
        assert forall|j: int| 0 <= j < k implies #[trigger] shared_component(style, from_end(a, j), from_end(b, j)) by {
            if j > 0 {
                assert(from_end(a, j) == from_end(a1, j - 1));
                assert(from_end(b, j) == from_end(b1, j - 1));
            }
        }
        if k < a.len() && k < b.len() {
            assert(from_end(a, k as int) == from_end(a1, k - 1));
            assert(from_end(b, k as int) == from_end(b1, k - 1));
        }
    }
}

/// `k` is the common suffix length when the last `k` components agree and
/// the ones in front of them, if both exist, do not.
pub proof fn lemma_common_suffix_len_is(style: PathStyle, a: Seq<Seq<char>>, b: Seq<Seq<char>>, k: nat)
    requires
        k <= a.len(),
        k <= b.len(),
        forall|j: int| 0 <= j < k ==> #[trigger] shared_component(style, from_end(a, j), from_end(b, j)),
        k == a.len() || k == b.len() || !shared_component(style, from_end(a, k as int), from_end(b, k as int)),
    ensures
        common_suffix_len(style, a, b) == k,
    decreases k,
{
    if k > 0 {
        let a1 = a.drop_last();
        let b1 = b.drop_last();
        assert(shared_component(style, from_end(a, 0), from_end(b, 0)));
        assert forall|j: int| 0 <= j < k - 1 implies #[trigger] shared_component(style, from_end(a1, j), from_end(b1, j)) by {
            assert(from_end(a1, j) == from_end(a, j + 1));
            assert(from_end(b1, j) == from_end(b, j + 1));
        }
        if k - 1 < a1.len() && k - 1 < b1.len() {
            assert(from_end(a1, k - 1) == from_end(a, k as int));
            assert(from_end(b1, k - 1) == from_end(b, k as int));
        }
        lemma_common_suffix_len_is(style, a1, b1, (k - 1) as nat);
    }
}

/// The number of trailing components that `c` and `l` share.
fn common_suffix_length(style: PathStyle, c: &Vec<String>, l: &Vec<String>) -> (k: usize)
    ensures
        k == common_suffix_len(style, c.deep_view(), l.deep_view()),
{
    let ghost cv = c.deep_view();
    let ghost lv = l.deep_view();
    let mut k: usize = 0;
    loop
        invariant
            cv == c.deep_view(),
            lv == l.deep_view(),
            k <= c.len(),
            k <= l.len(),
            forall|j: int| 0 <= j < k ==> #[trigger] shared_component(style, from_end(cv, j), from_end(lv, j)),
        ensures
            k <= c.len(),
            k <= l.len(),
            forall|j: int| 0 <= j < k ==> #[trigger] shared_component(style, from_end(cv, j), from_end(lv, j)),
            k == cv.len() || k == lv.len() || !shared_component(style, from_end(cv, k as int), from_end(lv, k as int)),
        decreases c.len() - k,
    {
        if k >= c.len() || k >= l.len() {
            break ;
        }
        let ci = c.len() - 1 - k;
        let li = l.len() - 1 - k;
        assert(cv[ci as int] == c[ci as int]@);
        assert(lv[li as int] == l[li as int]@);
        if !components_equal(style, &c[ci], &l[li]) || is_root_component(style, &c[ci]) {
            break ;
        }
        k += 1;
    }
    proof {
        lemma_common_suffix_len_is(style, cv, lv, k as nat);
    }
    k
}

/// Whether the first `cn` components of `c` and the first `ln` of `l` make
/// the same path.
fn prefixes_equal(style: PathStyle, c: &Vec<String>, cn: usize, l: &Vec<String>, ln: usize) -> (eq:
    bool)
    requires
        cn <= c.len(),
        ln <= l.len(),
    ensures
        eq == same_path(style, c.deep_view().take(cn as int), l.deep_view().take(ln as int)),
{
    let ghost cp = c.deep_view().take(cn as int);
    let ghost lp = l.deep_view().take(ln as int);
    if cn != ln {
        assert(cp.len() != lp.len());
        return false;
    }
    let mut i: usize = 0;
    while i < cn
        invariant
            cn == ln,
            cn <= c.len(),
            ln <= l.len(),
            i <= cn,
            cp == c.deep_view().take(cn as int),
            lp == l.deep_view().take(ln as int),
            forall|j: int| 0 <= j < i ==> #[trigger] same_path_component(style, cp[j], lp[j]),
        decreases cn - i,
    {
        assert(cp[i as int] == c[i as int]@);
        assert(lp[i as int] == l[i as int]@);
        if !same_path_components(style, &c[i], &l[i]) {
            return false;
        }
        i += 1;
    }
    true
}

/// Finds where `canonical` and `logical` diverge: their longest common
/// suffix of components, and the prefixes in front of it, each written as a
/// path.
///
/// Both paths are read with the rules of `style`, and on Windows trailing
/// components match without regard to ASCII case. The root is never part
/// of the shared suffix. Returns `None` when the paths share no trailing
/// component, or when the prefixes in front of the shared suffix are the
/// same (the paths are the same path).
pub fn find_divergence_point(style: PathStyle, canonical: &str, logical: &str) -> (res: Option<
    (String, String),
>)
    ensures
        match res {
            Some(p) => divergence_paths(style, canonical@, logical@) == Some((p.0@, p.1@)),
            None => divergence_paths(style, canonical@, logical@) is None,
        },
{
    let canonical_components = path_components(style, canonical);
    let logical_components = path_components(style, logical);
    let common = common_suffix_length(style, &canonical_components, &logical_components);
    proof {
        lemma_common_suffix_len_bound(
            style,
            canonical_components.deep_view(),
            logical_components.deep_view(),
        );
    }
    if common == 0 {
        return None;
    }
    let canonical_prefix_len = canonical_components.len() - common;
    let logical_prefix_len = logical_components.len() - common;
    if canonical_prefix_len == 0 && logical_prefix_len == 0 {
        assert(canonical_components.deep_view().take(0) =~= logical_components.deep_view().take(0));
        return None;
    }
    if prefixes_equal(
        style,
        &canonical_components,
        canonical_prefix_len,
        &logical_components,
        logical_prefix_len,
    ) {
        return None;
    }
    let canonical_prefix = render_components(style, &canonical_components, canonical_prefix_len);
    let logical_prefix = render_components(style, &logical_components, logical_prefix_len);
    Some((canonical_prefix, logical_prefix))
}

} // verus!
