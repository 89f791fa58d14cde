//! What holds of the library as a whole: how the divergence point splits
//! the two paths, and how translations in the two directions undo each
//! other.
use vstd::prelude::*;

use crate::components::{alike, components_of, has_root, lemma_leads_unix, PathStyle};
use crate::context::{
    compared_form, joined, settled, translation_target_of, TranslationDirection,
};
use crate::divergence::{
    common_suffix_len, divergence, divergence_paths, from_end, lemma_common_suffix_len_bound,
    shared_component,
};
use crate::render::{
    is_normal_component, lemma_components_of_rendered, lemma_components_well_formed,
    lemma_rendered_unix, rendered, unix_rendered, well_formed,
};

verus! {

/// The first `n` components of a well-formed sequence are well formed.
proof fn lemma_take_well_formed(cs: Seq<Seq<char>>, n: int)
    requires
        well_formed(cs),
        0 <= n <= cs.len(),
    ensures
        well_formed(cs.take(n)),
{
    assert forall|i: int| 0 < i < cs.take(n).len() implies is_normal_component(PathStyle::Unix, 
        #[trigger] cs.take(n)[i],
    ) by {
        assert(cs.take(n)[i] == cs[i]);
    }
}

/// The components of a path that begins with `/` begin with the root.
proof fn lemma_rooted_components(s: Seq<char>)
    requires
        has_root(s),
    ensures
        components_of(PathStyle::Unix, s).len() > 0,
        components_of(PathStyle::Unix, s)[0] == seq!['/'],
{
}

/// A path whose components begin with the root begins with `/`.
proof fn lemma_rendered_rooted(cs: Seq<Seq<char>>)
    requires
        cs.len() > 0,
        cs[0] == seq!['/'],
    ensures
        has_root(rendered(PathStyle::Unix, cs)),
{
    lemma_rendered_unix(cs);
}

/// A well-formed Unix component sequence, written out, reads back the same.
proof fn lemma_unix_round(cs: Seq<Seq<char>>)
    requires
        well_formed(cs),
    ensures
        components_of(PathStyle::Unix, rendered(PathStyle::Unix, cs)) == cs,
{
    lemma_rendered_unix(cs);
    lemma_components_of_rendered(cs);
}

/// The root is not a normal component.
proof fn lemma_root_not_normal()
    ensures
        !is_normal_component(PathStyle::Unix, seq!['/']),
{
    assert(seq!['/'][0] == '/');
}

/// Where two paths diverge, each path is its prefix followed by one and the
/// same non-empty suffix; the two prefixes differ, and when both are
/// non-empty they end in different components, so the suffix is the longest
/// one the paths share.
pub proof fn law_divergence_splits_paths(canonical: Seq<char>, logical: Seq<char>)
    requires
        divergence_paths(PathStyle::Unix, canonical, logical) is Some,
    ensures
        ({
            let p = divergence_paths(PathStyle::Unix, canonical, logical)->0;
            let cpc = components_of(PathStyle::Unix, p.0);
            let lpc = components_of(PathStyle::Unix, p.1);
            exists|suffix: Seq<Seq<char>>|
                {
                    &&& suffix.len() > 0
                    &&& components_of(PathStyle::Unix, canonical) == cpc + suffix
                    &&& components_of(PathStyle::Unix, logical) == lpc + suffix
                    &&& cpc != lpc
                    &&& cpc.len() > 0 && lpc.len() > 0 ==> cpc.last() != lpc.last()
                }
        }),
{
    let c = components_of(PathStyle::Unix, canonical);
    let l = components_of(PathStyle::Unix, logical);
    lemma_components_well_formed(canonical);
    lemma_components_well_formed(logical);
    lemma_common_suffix_len_bound(PathStyle::Unix, c, l);
    let k = common_suffix_len(PathStyle::Unix, c, l);
    let cp = c.take(c.len() - k);
    let lp = l.take(l.len() - k);
    lemma_take_well_formed(c, c.len() - k);
    lemma_take_well_formed(l, l.len() - k);
    lemma_unix_round(cp);
    lemma_unix_round(lp);
    let suffix = c.skip(c.len() - k);
    assert forall|i: int| 0 <= i < k implies suffix[i] == l.skip(l.len() - k)[i] by {
        let j = k - 1 - i;
        assert(shared_component(PathStyle::Unix, from_end(c, j), from_end(l, j)));
        assert(from_end(c, j) == from_end(l, j));
    }
    assert(suffix =~= l.skip(l.len() - k));
    assert(c =~= cp + suffix);
    assert(l =~= lp + suffix);
    assert(divergence(PathStyle::Unix, c, l) is Some);
    if cp.len() > 0 && lp.len() > 0 {
        assert(cp.last() == from_end(c, k as int));
        assert(lp.last() == from_end(l, k as int));
        if cp.last() == lp.last() {
            // Only the root can stop a shared suffix at equal components, and
            // the root stands first, so both prefixes would be the root alone.
            assert(cp.last() == seq!['/']);
            lemma_root_not_normal();
            assert(cp.len() == 1);
            assert(lp.len() == 1);
            assert(cp =~= lp);
        }
    }
    assert(divergence(PathStyle::Unix, c, l) == Some((cp, lp)));
    let p = divergence_paths(PathStyle::Unix, canonical, logical)->0;
    assert(p == (rendered(PathStyle::Unix, cp), rendered(PathStyle::Unix, lp)));
    assert(k > 0);
    assert({
        &&& suffix.len() > 0
        &&& components_of(PathStyle::Unix, canonical) == components_of(PathStyle::Unix, p.0) + suffix
        &&& components_of(PathStyle::Unix, logical) == components_of(PathStyle::Unix, p.1) + suffix
        &&& components_of(PathStyle::Unix, p.0) != components_of(PathStyle::Unix, p.1)
        &&& components_of(PathStyle::Unix, p.0).len() > 0 && components_of(PathStyle::Unix, p.1).len() > 0 ==> components_of(PathStyle::Unix, 
            p.0,
        ).last() != components_of(PathStyle::Unix, p.1).last()
    });
}

/// A path does not diverge from itself, nor from any path with the same
/// components, under either platform's rules.
pub proof fn law_same_paths_do_not_diverge(style: PathStyle, canonical: Seq<char>, logical: Seq<char>)
    requires
        components_of(style, canonical) == components_of(style, logical),
    ensures
        divergence_paths(style, canonical, logical) is None,
{
    let c = components_of(style, canonical);
    let k = common_suffix_len(style, c, c);
    assert(c.take(c.len() - k) =~= c.take(c.len() - k));
}

/// The prefixes where two rooted paths diverge are rooted too.
pub proof fn law_rooted_paths_diverge_at_rooted_prefixes(canonical: Seq<char>, logical: Seq<char>)
    requires
        has_root(canonical),
        has_root(logical),
        divergence_paths(PathStyle::Unix, canonical, logical) is Some,
    ensures
        has_root((divergence_paths(PathStyle::Unix, canonical, logical)->0).0),
        has_root((divergence_paths(PathStyle::Unix, canonical, logical)->0).1),
{
    let c = components_of(PathStyle::Unix, canonical);
    let l = components_of(PathStyle::Unix, logical);
    lemma_components_well_formed(canonical);
    lemma_components_well_formed(logical);
    lemma_common_suffix_len_bound(PathStyle::Unix, c, l);
    lemma_rooted_components(canonical);
    lemma_rooted_components(logical);
    lemma_root_not_normal();
    let k = common_suffix_len(PathStyle::Unix, c, l);
    let cp = c.take(c.len() - k);
    let lp = l.take(l.len() - k);
    assert(divergence(PathStyle::Unix, c, l) is Some);
    // The root is never shared, so the first component of each path stays in
    // front of the shared suffix.
    if k == c.len() {
        assert(shared_component(PathStyle::Unix, from_end(c, k - 1), from_end(l, k - 1)));
        assert(from_end(c, k - 1) == c[0]);
        assert(false);
    }
    if k == l.len() {
        assert(shared_component(PathStyle::Unix, from_end(c, k - 1), from_end(l, k - 1)));
        assert(from_end(l, k - 1) == l[0]);
        assert(false);
    }
    assert(cp[0] == c[0]);
    assert(lp[0] == l[0]);
    lemma_rendered_rooted(cp);
    lemma_rendered_rooted(lp);
}

/// The direction opposite to `direction`.
pub open spec fn reversed(direction: TranslationDirection) -> TranslationDirection {
    match direction {
        TranslationDirection::ToLogical => TranslationDirection::ToCanonical,
        TranslationDirection::ToCanonical => TranslationDirection::ToLogical,
    }
}

/// Translating a path and translating the result back gives the same path
/// again, component by component, when both prefixes of the mapping are
/// rooted.
pub proof fn law_translation_round_trip(
    canonical_prefix: Seq<char>,
    logical_prefix: Seq<char>,
    path: Seq<char>,
    direction: TranslationDirection,
)
    requires
        has_root(canonical_prefix),
        has_root(logical_prefix),
        translation_target_of(Some((canonical_prefix, logical_prefix, PathStyle::Unix)), path, direction) is Some,
    ensures
        ({
            let m = Some((canonical_prefix, logical_prefix, PathStyle::Unix));
            let there = translation_target_of(m, path, direction)->0;
            let back = translation_target_of(m, there, reversed(direction));
            back is Some && components_of(PathStyle::Unix, back->0) == components_of(PathStyle::Unix, path)
        }),
{
    let m = Some((canonical_prefix, logical_prefix, PathStyle::Unix));
    let (from, to) = match direction {
        TranslationDirection::ToLogical => (canonical_prefix, logical_prefix),
        TranslationDirection::ToCanonical => (logical_prefix, canonical_prefix),
    };
    let pc = components_of(PathStyle::Unix, path);
    let fc = components_of(PathStyle::Unix, from);
    let tc = components_of(PathStyle::Unix, to);
    lemma_components_well_formed(path);
    lemma_components_well_formed(from);
    lemma_components_well_formed(to);
    lemma_rooted_components(from);
    lemma_rooted_components(to);
    lemma_root_not_normal();
    let suffix = pc.skip(fc.len() as int);
    assert forall|i: int| 0 <= i < suffix.len() implies is_normal_component(PathStyle::Unix, 
        #[trigger] suffix[i],
    ) by {
        assert(suffix[i] == pc[fc.len() + i]);
    }
    if suffix.len() > 0 {
        assert(!is_normal_component(PathStyle::Unix, seq!['/']));
        assert(suffix[0] != seq!['/']);
    }
    assert(joined(PathStyle::Unix, tc, suffix) == tc + suffix);
    let there_comps = tc + suffix;
    assert forall|i: int| 0 < i < there_comps.len() implies is_normal_component(PathStyle::Unix, 
        #[trigger] there_comps[i],
    ) by {
        if i < tc.len() {
            assert(there_comps[i] == tc[i]);
        } else {
            assert(there_comps[i] == suffix[i - tc.len()]);
        }
    }
    assert(there_comps[0] == tc[0]);
    assert(well_formed(there_comps));
    let there = rendered(PathStyle::Unix, there_comps);
    assert(translation_target_of(m, path, direction) == Some(there));
    lemma_unix_round(there_comps);
    lemma_rendered_rooted(there_comps);
    assert(tc.is_prefix_of(there_comps)) by {
        assert(there_comps.subrange(0, tc.len() as int) =~= tc);
    }
    lemma_leads_unix(tc, there_comps);
    lemma_leads_unix(fc, pc);
    assert(there_comps.skip(tc.len() as int) =~= suffix);
    assert(joined(PathStyle::Unix, fc, suffix) == fc + suffix);
    assert(fc + suffix =~= pc);
    lemma_unix_round(pc);
}

/// Translating a path that a translation has already produced, in the same
/// direction, leaves it alone, when both prefixes are rooted and the source
/// prefix is neither longer than the destination prefix nor one of its
/// leading parts.
pub proof fn law_translation_idempotent(
    canonical_prefix: Seq<char>,
    logical_prefix: Seq<char>,
    path: Seq<char>,
    direction: TranslationDirection,
)
    requires
        has_root(canonical_prefix),
        has_root(logical_prefix),
        ({
            let (from, to) = match direction {
                TranslationDirection::ToLogical => (canonical_prefix, logical_prefix),
                TranslationDirection::ToCanonical => (logical_prefix, canonical_prefix),
            };
            &&& components_of(PathStyle::Unix, from).len() <= components_of(PathStyle::Unix, to).len()
            &&& !components_of(PathStyle::Unix, from).is_prefix_of(components_of(PathStyle::Unix, to))
        }),
        translation_target_of(Some((canonical_prefix, logical_prefix, PathStyle::Unix)), path, direction) is Some,
    ensures
        ({
            let m = Some((canonical_prefix, logical_prefix, PathStyle::Unix));
            let there = translation_target_of(m, path, direction)->0;
            translation_target_of(m, there, direction) is None
        }),
{
    let m = Some((canonical_prefix, logical_prefix, PathStyle::Unix));
    let (from, to) = match direction {
        TranslationDirection::ToLogical => (canonical_prefix, logical_prefix),
        TranslationDirection::ToCanonical => (logical_prefix, canonical_prefix),
    };
    let pc = components_of(PathStyle::Unix, path);
    let fc = components_of(PathStyle::Unix, from);
    let tc = components_of(PathStyle::Unix, to);
    lemma_components_well_formed(path);
    lemma_components_well_formed(to);
    lemma_rooted_components(from);
    lemma_rooted_components(to);
    lemma_root_not_normal();
    let suffix = pc.skip(fc.len() as int);
    assert forall|i: int| 0 <= i < suffix.len() implies is_normal_component(PathStyle::Unix, 
        #[trigger] suffix[i],
    ) by {
        assert(suffix[i] == pc[fc.len() + i]);
    }
    if suffix.len() > 0 {
        assert(suffix[0] != seq!['/']);
    }
    let there_comps = tc + suffix;
    assert(joined(PathStyle::Unix, tc, suffix) == there_comps);
    assert forall|i: int| 0 < i < there_comps.len() implies is_normal_component(PathStyle::Unix, 
        #[trigger] there_comps[i],
    ) by {
        if i < tc.len() {
            assert(there_comps[i] == tc[i]);
        } else {
            assert(there_comps[i] == suffix[i - tc.len()]);
        }
    }
    assert(there_comps[0] == tc[0]);
    lemma_unix_round(there_comps);
    lemma_leads_unix(fc, there_comps);
    lemma_leads_unix(fc, pc);
    if fc.is_prefix_of(there_comps) {
        assert(fc =~= tc.subrange(0, fc.len() as int)) by {
            assert forall|i: int| 0 <= i < fc.len() implies fc[i] == tc[i] by {
                assert(fc[i] == there_comps.subrange(0, fc.len() as int)[i]);
                assert(there_comps[i] == tc[i]);
            }
        }
        assert(false);
    }
}

/// A translation gives back something other than its input only when both
/// the input and the candidate resolved, to the same path; when the input
/// does not resolve, the input comes back.
pub proof fn law_translation_is_validated(
    style: PathStyle,
    path: Seq<char>,
    target: Seq<char>,
    path_resolved: Option<Seq<char>>,
    target_resolved: Option<Seq<char>>,
)
    ensures
        path_resolved is None ==> settled(style, path, target, path_resolved, target_resolved)
            == path,
        settled(style, path, target, path_resolved, target_resolved) != path ==> {
            &&& settled(style, path, target, path_resolved, target_resolved) == target
            &&& path_resolved is Some
            &&& target_resolved is Some
            &&& alike(
                style,
                components_of(style, compared_form(style, path_resolved->0)),
                components_of(style, compared_form(style, target_resolved->0)),
            )
        },
{
}

/// Translating a path to its logical form and the result back to its
/// canonical form gives the same path again, component by component, when
/// both prefixes are rooted, the first translation passed its check, and
/// the resolver gives one answer for paths with equal components.
pub proof fn law_resolved_round_trip(
    canonical_prefix: Seq<char>,
    logical_prefix: Seq<char>,
    path: Seq<char>,
    resolve: spec_fn(Seq<char>) -> Option<Seq<char>>,
)
    requires
        has_root(canonical_prefix),
        has_root(logical_prefix),
        forall|x: Seq<char>, y: Seq<char>|
            components_of(PathStyle::Unix, x) == components_of(PathStyle::Unix, y) ==> #[trigger] resolve(x)
                == #[trigger] resolve(y),
        translation_target_of(
            Some((canonical_prefix, logical_prefix, PathStyle::Unix)),
            path,
            TranslationDirection::ToLogical,
        ) is Some,
        ({
            let m = Some((canonical_prefix, logical_prefix, PathStyle::Unix));
            let there = translation_target_of(m, path, TranslationDirection::ToLogical)->0;
            &&& resolve(path) is Some
            &&& resolve(there) is Some
            &&& components_of(PathStyle::Unix, resolve(path)->0) == components_of(
                PathStyle::Unix,
                resolve(there)->0,
            )
        }),
    ensures
        ({
            let m = Some((canonical_prefix, logical_prefix, PathStyle::Unix));
            let there = translation_target_of(m, path, TranslationDirection::ToLogical)->0;
            let back = translation_target_of(m, there, TranslationDirection::ToCanonical);
            &&& back is Some
            &&& settled(PathStyle::Unix, there, back->0, resolve(there), resolve(back->0))
                == back->0
            &&& components_of(PathStyle::Unix, back->0) == components_of(PathStyle::Unix, path)
        }),
{
    law_translation_round_trip(canonical_prefix, logical_prefix, path, TranslationDirection::ToLogical);
    let m = Some((canonical_prefix, logical_prefix, PathStyle::Unix));
    let there = translation_target_of(m, path, TranslationDirection::ToLogical)->0;
    let back = translation_target_of(m, there, TranslationDirection::ToCanonical)->0;
    assert(resolve(back) == resolve(path));
}

/// With no mapping, no path has a translation, so both directions return
/// their input unchanged.
pub proof fn law_no_mapping_translates_nothing(path: Seq<char>, direction: TranslationDirection)
    ensures
        translation_target_of(None, path, direction) is None,
{
}

} // verus!
