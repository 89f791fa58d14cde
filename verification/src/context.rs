//! The detected mapping between canonical and logical paths, and the
//! translation of paths through it.
use vstd::prelude::*;

use crate::components::{
    alike, components_of, is_absolute, is_relative, leads, path_components, paths_alike,
    paths_equal, root_component, same_path, starts_with_components, PathStyle,
};
use crate::divergence::{divergence_paths, find_divergence_point};
use crate::extended::{extended_length_stripped, strip_extended_length_prefix};
use crate::render::{
    is_prefix_component, is_prefix_string, is_root_component, lemma_components_nonempty,
    lemma_rendered_nonempty, render_components, rendered,
};

verus! {

/// The divergence point between the canonical and the logical path: the
/// prefix that the canonical path has in front of the shared suffix, the
/// one that the logical path has, and the platform rules both were read
/// with.
#[derive(Debug, Clone, PartialEq, Eq)]
pub struct PrefixMapping {
    pub canonical_prefix: String,
    pub logical_prefix: String,
    pub style: PathStyle,
}

/// A context that holds zero or one active prefix mappings between canonical
/// (symlink-resolved) and logical (symlink-preserving) paths.
#[derive(Debug, Clone, PartialEq, Eq)]
pub struct LogicalPathContext {
    pub mapping: Option<PrefixMapping>,
}

/// Which way a path is translated.
#[derive(Debug, Clone, Copy, PartialEq, Eq)]
pub enum TranslationDirection {
    /// From the canonical prefix to the logical one.
    ToLogical,
    /// From the logical prefix to the canonical one.
    ToCanonical,
}

impl View for LogicalPathContext {
    /// The canonical prefix, the logical prefix and the path rules, when
    /// there is a mapping.
    type V = Option<(Seq<char>, Seq<char>, PathStyle)>;

    open spec fn view(&self) -> Option<(Seq<char>, Seq<char>, PathStyle)> {
        match self.mapping {
            Some(m) => Some((m.canonical_prefix@, m.logical_prefix@, m.style)),
            None => None,
        }
    }
}

/// `rel` pushed onto `base`: a `rel` that begins with a prefix replaces
/// `base`; one that begins with the root keeps only the prefix of `base`;
/// any other is appended to `base`.
pub open spec fn joined(style: PathStyle, base: Seq<Seq<char>>, rel: Seq<Seq<char>>) -> Seq<
    Seq<char>,
> {
    if rel.len() > 0 && is_prefix_component(style, rel[0]) {
        rel
    } else if rel.len() > 0 && rel[0] == root_component(style) {
        if base.len() > 0 && is_prefix_component(style, base[0]) {
            seq![base[0]] + rel
        } else {
            rel
        }
    } else {
        base + rel
    }
}

/// The form of `s` that is compared: on Windows without its `\\?\`
/// extended-length prefix.
pub open spec fn compared_form(style: PathStyle, s: Seq<char>) -> Seq<char> {
    match style {
        PathStyle::Unix => s,
        PathStyle::Windows => extended_length_stripped(s),
    }
}

/// The path that `path` would be translated to through `mapping`, before
/// that translation is checked against the file system: `None` when there
/// is no mapping, when `path` is relative, or when `path` (on Windows
/// without its `\\?\` prefix) does not start with the source prefix,
/// component by component (on Windows a drive letter matches in either
/// case). Otherwise the source prefix is replaced by the destination
/// prefix.
pub open spec fn translation_target_of(
    mapping: Option<(Seq<char>, Seq<char>, PathStyle)>,
    path: Seq<char>,
    direction: TranslationDirection,
) -> Option<Seq<char>> {
    match mapping {
        None => None,
        Some(m) => {
            let style = m.2;
            let from = match direction {
                TranslationDirection::ToLogical => m.0,
                TranslationDirection::ToCanonical => m.1,
            };
            let to = match direction {
                TranslationDirection::ToLogical => m.1,
                TranslationDirection::ToCanonical => m.0,
            };
            let pc = components_of(style, compared_form(style, path));
            let fc = components_of(style, from);
            if !is_absolute(style, path) || !leads(style, fc, pc) {
                None
            } else {
                Some(
                    rendered(
                        style,
                        joined(style, components_of(style, to), pc.skip(fc.len() as int)),
                    ),
                )
            }
        },
    }
}

/// When both prefixes of the mapping are non-empty, so is every path that a
/// translation through it produces.
pub proof fn lemma_target_nonempty(
    mapping: Option<(Seq<char>, Seq<char>, PathStyle)>,
    path: Seq<char>,
    direction: TranslationDirection,
)
    requires
        mapping matches Some(m) && m.0.len() > 0 && m.1.len() > 0,
        translation_target_of(mapping, path, direction) is Some,
    ensures
        translation_target_of(mapping, path, direction)->0.len() > 0,
{
    let m = mapping->0;
    let style = m.2;
    let from = match direction {
        TranslationDirection::ToLogical => m.0,
        TranslationDirection::ToCanonical => m.1,
    };
    let to = match direction {
        TranslationDirection::ToLogical => m.1,
        TranslationDirection::ToCanonical => m.0,
    };
    let pc = components_of(style, compared_form(style, path));
    let fc = components_of(style, from);
    let tc = components_of(style, to);
    lemma_components_nonempty(style, compared_form(style, path));
    lemma_components_nonempty(style, to);
    let rest = pc.skip(fc.len() as int);
    if rest.len() > 0 {
        assert(rest[0] == pc[fc.len() as int]);
    }
    let j = joined(style, tc, rest);
    assert(j.len() > 0 && j[0].len() > 0);
    lemma_rendered_nonempty(style, j);
}

/// The path rules of a mapping, Unix when there is none.
pub open spec fn style_of(mapping: Option<(Seq<char>, Seq<char>, PathStyle)>) -> PathStyle {
    match mapping {
        Some(m) => m.2,
        None => PathStyle::Unix,
    }
}

/// What a translation returns once the input and its candidate have been
/// resolved: the candidate when both resolved and name the same path (on
/// Windows after their `\\?\` prefixes are taken off, and without regard
/// to ASCII case), the input otherwise.
pub open spec fn settled(
    style: PathStyle,
    path: Seq<char>,
    target: Seq<char>,
    path_resolved: Option<Seq<char>>,
    target_resolved: Option<Seq<char>>,
) -> Seq<char> {
    match (path_resolved, target_resolved) {
        (Some(a), Some(b)) => if alike(
            style,
            components_of(style, compared_form(style, a)),
            components_of(style, compared_form(style, b)),
        ) {
            target
        } else {
            path
        },
        _ => path,
    }
}

/// Whether the resolved forms `a` and `b` name the same path as the
/// round-trip check compares them: under `style`, on Windows after their
/// `\\?\` prefixes are taken off and without regard to ASCII case.
pub open spec fn resolved_alike(style: PathStyle, a: Seq<char>, b: Seq<char>) -> bool {
    alike(
        style,
        components_of(style, compared_form(style, a)),
        components_of(style, compared_form(style, b)),
    )
}

/// The mapping detected, with Unix rules, from the logical working
/// directory `pwd`, the canonical working directory `cwd`, and what `pwd`
/// resolves to.
pub open spec fn detection_of(
    pwd: Option<Seq<char>>,
    cwd: Seq<char>,
    pwd_resolved: Option<Seq<char>>,
) -> Option<(Seq<char>, Seq<char>, PathStyle)> {
    let u = PathStyle::Unix;
    match pwd {
        None => None,
        Some(p) => if p.len() == 0 || same_path(u, components_of(u, p), components_of(u, cwd)) {
            None
        } else {
            match pwd_resolved {
                Some(r) => if same_path(u, components_of(u, r), components_of(u, cwd)) {
                    with_style(divergence_paths(u, cwd, p), u)
                } else {
                    None
                },
                None => None,
            }
        },
    }
}

/// A pair of prefixes, with the rules they were read with.
pub open spec fn with_style(found: Option<(Seq<char>, Seq<char>)>, style: PathStyle) -> Option<
    (Seq<char>, Seq<char>, PathStyle),
> {
    match found {
        Some(p) => Some((p.0, p.1, style)),
        None => None,
    }
}

/// Whether `cs` is a Windows prefix followed by the root and nothing else:
/// the root of a drive or a share.
pub open spec fn is_bare_root(cs: Seq<Seq<char>>) -> bool {
    cs.len() == 2 && is_prefix_component(PathStyle::Windows, cs[0]) && cs[1] == root_component(
        PathStyle::Windows,
    )
}

/// The mapping detected, with Windows rules, from the working directory
/// `cwd` and its resolved form `canonical`: none when they are the same
/// path; the whole of `canonical` against `cwd` when `cwd` is the root of a
/// drive or share (a subst or mapped drive entered at its root) and
/// `canonical` is absolute; otherwise where the two paths diverge.
pub open spec fn cwd_detection_of(cwd: Seq<char>, canonical: Seq<char>) -> Option<
    (Seq<char>, Seq<char>, PathStyle),
> {
    let w = PathStyle::Windows;
    let lc = components_of(w, cwd);
    let cc = components_of(w, canonical);
    if same_path(w, lc, cc) {
        None
    } else if is_bare_root(lc) && is_absolute(w, canonical) {
        Some((rendered(w, cc), rendered(w, lc), w))
    } else {
        with_style(divergence_paths(w, canonical, cwd), w)
    }
}

impl Default for LogicalPathContext {
    /// Returns a context with no active mapping.
    fn default() -> (ctx: Self)
        ensures
            ctx@ is None,
    {
        LogicalPathContext { mapping: None }
    }
}

impl LogicalPathContext {
    fn from_divergence(found: Option<(String, String)>, style: PathStyle) -> (ctx: Self)
        ensures
            ctx@ == with_style(
                match found {
                    Some(p) => Some((p.0@, p.1@)),
                    None => None,
                },
                style,
            ),
    {
        match found {
            Some((canonical_prefix, logical_prefix)) => LogicalPathContext {
                mapping: Some(PrefixMapping { canonical_prefix, logical_prefix, style }),
            },
            None => LogicalPathContext { mapping: None },
        }
    }

    /// Detects the mapping, with Unix rules, from the logical working
    /// directory `pwd` (the shell's `$PWD`) and the canonical working
    /// directory `canonical_cwd`. `resolve` canonicalizes a path, giving
    /// `None` where it cannot (for a path that does not exist).
    ///
    /// There is no mapping when `pwd` is absent or empty, when it is the same
    /// path as `canonical_cwd`, or when it does not resolve to
    /// `canonical_cwd` (a stale or divergent `$PWD`); otherwise the mapping
    /// is where the two paths diverge.
    pub fn detect_from<F: Fn(&str) -> Option<String>>(
        pwd: Option<&str>,
        canonical_cwd: &str,
        resolve: F,
    ) -> (ctx: LogicalPathContext)
        requires
            forall|p: &str| call_requires(resolve, (p,)),
        ensures
            match pwd {
                None => ctx@ is None,
                Some(p) => if p@.len() == 0 || same_path(
                    PathStyle::Unix,
                    components_of(PathStyle::Unix, p@),
                    components_of(PathStyle::Unix, canonical_cwd@),
                ) {
                    ctx@ is None
                } else {
                    exists|r: Option<String>|
                        #[trigger] call_ensures(resolve, (p,), r) && ctx@ == detection_of(
                            Some(p@),
                            canonical_cwd@,
                            r.deep_view(),
                        )
                },
            },
            pwd matches Some(p) ==> (ctx@ is Some ==> exists|r: String|
                #[trigger] call_ensures(resolve, (p,), Some(r)) && same_path(
                    PathStyle::Unix,
                    components_of(PathStyle::Unix, r@),
                    components_of(PathStyle::Unix, canonical_cwd@),
                )),
    {
        let u = PathStyle::Unix;
        let pwd = match pwd {
            Some(p) => {
                if p.unicode_len() == 0 {
                    return LogicalPathContext { mapping: None };
                }
                p
            },
            None => {
                return LogicalPathContext { mapping: None };
            },
        };
        if paths_equal(u, pwd, canonical_cwd) {
            return LogicalPathContext { mapping: None };
        }
        let resolved = resolve(pwd);
        let valid = match &resolved {
            Some(canonical_pwd) => paths_equal(u, canonical_pwd.as_str(), canonical_cwd),
            None => false,
        };
        if !valid {
            let ctx = LogicalPathContext { mapping: None };
            assert(call_ensures(resolve, (pwd,), resolved) && ctx@ == detection_of(
                Some(pwd@),
                canonical_cwd@,
                resolved.deep_view(),
            ));
            return ctx;
        }
        proof {
            assert(call_ensures(resolve, (pwd,), Some(resolved->0)));
        }
        let ctx = Self::from_divergence(find_divergence_point(u, canonical_cwd, pwd), u);
        assert(call_ensures(resolve, (pwd,), resolved) && ctx@ == detection_of(
            Some(pwd@),
            canonical_cwd@,
            resolved.deep_view(),
        ));
        ctx
    }

    /// Detects the mapping, with Windows rules, from a working directory
    /// `cwd` that keeps its indirections (junctions, subst and mapped
    /// drives) and its resolved form `canonical_cwd` (without a `\\?\`
    /// prefix): none when they are the same path; when `cwd` is the root of
    /// a drive or share, the whole of `canonical_cwd` maps to it; otherwise
    /// the mapping is where the two paths diverge.
    pub fn detect_from_cwd(cwd: &str, canonical_cwd: &str) -> (ctx: LogicalPathContext)
        ensures
            ctx@ == cwd_detection_of(cwd@, canonical_cwd@),
    {
        let w = PathStyle::Windows;
        if paths_equal(w, cwd, canonical_cwd) {
            return LogicalPathContext { mapping: None };
        }
        let logical = path_components(w, cwd);
        let ghost lc = logical.deep_view();
        if logical.len() == 2 && is_prefix_string(w, &logical[0]) && is_root_component(
            w,
            &logical[1],
        ) && !is_relative(w, canonical_cwd) {
            assert(lc[0] == logical[0]@ && lc[1] == logical[1]@);
            let canonical = path_components(w, canonical_cwd);
            let canonical_prefix = render_components(w, &canonical, canonical.len());
            let logical_prefix = render_components(w, &logical, 2);
            assert(canonical.deep_view().take(canonical.len() as int) =~= canonical.deep_view());
            assert(lc.take(2) =~= lc);
            return LogicalPathContext {
                mapping: Some(PrefixMapping { canonical_prefix, logical_prefix, style: w }),
            };
        }
        proof {
            if lc.len() == 2 {
                assert(lc[0] == logical[0]@ && lc[1] == logical[1]@);
            }
        }
        Self::from_divergence(find_divergence_point(w, canonical_cwd, cwd), w)
    }

    /// Returns `true` if an active prefix mapping was detected.
    pub fn has_mapping(&self) -> (b: bool)
        ensures
            b == self@ is Some,
    {
        self.mapping.is_some()
    }

    /// The form of `path` that is compared under `style`.
    fn compared(style: PathStyle, path: &str) -> (s: String)
        ensures
            s@ == compared_form(style, path@),
    {
        match style {
            PathStyle::Unix => String::from_str(path),
            PathStyle::Windows => strip_extended_length_prefix(path),
        }
    }

    /// The path that `path` is translated to in `direction` before that
    /// translation is checked: `None` when there is no mapping, when `path`
    /// is relative, or when it does not start with the source prefix.
    pub fn translation_target(&self, path: &str, direction: TranslationDirection) -> (target:
        Option<String>)
        ensures
            target.deep_view() == translation_target_of(self@, path@, direction),
    {
        let mapping = match &self.mapping {
            Some(m) => m,
            None => {
                return None;
            },
        };
        let style = mapping.style;
        if is_relative(style, path) {
            return None;
        }
        let (from_prefix, to_prefix) = match direction {
            TranslationDirection::ToLogical => (&mapping.canonical_prefix, &mapping.logical_prefix),
            TranslationDirection::ToCanonical => (
                &mapping.logical_prefix,
                &mapping.canonical_prefix,
            ),
        };
        let matched = Self::compared(style, path);
        let path_comps = path_components(style, matched.as_str());
        let from_comps = path_components(style, from_prefix.as_str());
        if !starts_with_components(style, &from_comps, &path_comps) {
            return None;
        }
        let ghost pc = path_comps.deep_view();
        let ghost fc = from_comps.deep_view();
        let ghost suffix = pc.skip(fc.len() as int);
        let to_comps = path_components(style, to_prefix.as_str());
        let ghost tc = to_comps.deep_view();
        let start = from_comps.len();
        assert(start < path_comps.len() ==> pc[start as int] == path_comps[start as int]@);
        assert(start < path_comps.len() ==> suffix[0] == pc[start as int]);
        let suffix_prefixed = start < path_comps.len() && is_prefix_string(
            style,
            &path_comps[start],
        );
        let suffix_rooted = start < path_comps.len() && is_root_component(
            style,
            &path_comps[start],
        );
        let mut comps: Vec<String> = Vec::new();
        if suffix_prefixed {
        } else if suffix_rooted {
            if to_comps.len() > 0 && is_prefix_string(style, &to_comps[0]) {
                assert(tc[0] == to_comps[0]@);
                comps.push(to_comps[0].clone());
            }
        } else {
            comps = to_comps;
        }
        let ghost base = comps.deep_view();
        let mut i = start;
        while i < path_comps.len()
            invariant
                pc == path_comps.deep_view(),
                start <= i <= path_comps.len(),
                start == fc.len(),
                fc.len() <= pc.len(),
                suffix == pc.skip(start as int),
                comps.deep_view() == base + pc.subrange(start as int, i as int),
            decreases path_comps.len() - i,
        {
            let ghost before = comps.deep_view();
            let c = path_comps[i].clone();
            assert(c@ == pc[i as int]);
            comps.push(c);
            assert(comps.deep_view() =~= before.push(pc[i as int]));
            assert(comps.deep_view() =~= base + pc.subrange(start as int, i + 1));
            i += 1;
        }
        assert(pc.subrange(start as int, pc.len() as int) =~= suffix);
        proof {
            if suffix_prefixed {
                assert(base =~= Seq::<Seq<char>>::empty());
                assert(comps.deep_view() =~= suffix);
            } else if suffix_rooted {
                if tc.len() > 0 && is_prefix_component(style, tc[0]) {
                    assert(base =~= seq![tc[0]]);
                } else {
                    assert(base =~= Seq::<Seq<char>>::empty());
                    assert(comps.deep_view() =~= suffix);
                }
            }
            assert(comps.deep_view() == joined(style, tc, suffix));
        }
        let n = comps.len();
        let target = render_components(style, &comps, n);
        assert(comps.deep_view().take(n as int) =~= comps.deep_view());
        Some(target)
    }

    /// Translates `path` in `direction`, checked through `resolve`: the
    /// candidate is returned only when `path` and the candidate both resolve
    /// and name the same path; otherwise `path` comes back unchanged.
    fn translate<F: Fn(&str) -> Option<String>>(
        &self,
        path: &str,
        direction: TranslationDirection,
        resolve: F,
    ) -> (res: String)
        requires
            forall|p: &str| call_requires(resolve, (p,)),
        ensures
            path@.len() > 0 && (self@ matches Some(m) && m.0.len() > 0 && m.1.len() > 0)
                ==> res@.len() > 0,
            res@ != path@ ==> exists|a: String, q: &str, b: String|
                #[trigger] call_ensures(resolve, (path,), Some(a)) && q@ == res@
                    && #[trigger] call_ensures(resolve, (q,), Some(b)) && resolved_alike(
                    style_of(self@),
                    a@,
                    b@,
                ),
            (forall|a: Option<String>| #[trigger] call_ensures(resolve, (path,), a) ==> a is None)
                ==> res@ == path@,
            translation_target_of(self@, path@, direction) matches Some(t) ==> ((forall|
                a: Option<String>,
            | #[trigger] call_ensures(resolve, (path,), a) ==> a is Some) && (forall|
                q: &str,
                b: Option<String>,
            | q@ == t && #[trigger] call_ensures(resolve, (q,), b) ==> b is Some) && (forall|
                a: Option<String>,
                q: &str,
                b: Option<String>,
            |
                #[trigger] call_ensures(resolve, (path,), a) && q@ == t && #[trigger] call_ensures(
                    resolve,
                    (q,),
                    b,
                ) && a is Some && b is Some ==> resolved_alike(style_of(self@), a->0@, b->0@))
                ==> res@ == t),
            translation_target_of(self@, path@, direction) is None ==> res@ == path@,
            translation_target_of(self@, path@, direction) matches Some(t) ==> exists|
                a: Option<String>,
            |
                #[trigger] call_ensures(resolve, (path,), a) && (a is None ==> res@ == path@) && (
                a is Some ==> exists|q: &str, b: Option<String>|
                    q@ == t && #[trigger] call_ensures(resolve, (q,), b) && res@ == settled(
                        style_of(self@),
                        path@,
                        t,
                        a.deep_view(),
                        b.deep_view(),
                    )),
    {
        let fallback = String::from_str(path);
        let target = match self.translation_target(path, direction) {
            Some(t) => t,
            None => {
                return fallback;
            },
        };
        proof {
            if self@ matches Some(m) && m.0.len() > 0 && m.1.len() > 0 {
                lemma_target_nonempty(self@, path@, direction);
            }
        }
        let style = match &self.mapping {
            Some(m) => m.style,
            None => PathStyle::Unix,
        };
        let input_canonical = resolve(path);
        let input_resolved = match &input_canonical {
            Some(c) => c,
            None => {
                return fallback;
            },
        };
        let target_str = target.as_str();
        let target_canonical = resolve(target_str);
        assert(call_ensures(resolve, (target_str,), target_canonical));
        let result = match &target_canonical {
            Some(c) => {
                let a = Self::compared(style, input_resolved.as_str());
                let b = Self::compared(style, c.as_str());
                if paths_alike(style, a.as_str(), b.as_str()) {
                    proof {
                        assert(call_ensures(resolve, (path,), Some(*input_resolved)));
                        assert(call_ensures(resolve, (target_str,), Some(*c)));
                        assert(resolved_alike(style_of(self@), input_resolved@, c@));
                    }
                    target
                } else {
                    fallback
                }
            },
            None => fallback,
        };
        result
    }

    /// Translates a canonical (symlink-resolved) path to its logical
    /// (symlink-preserving) equivalent, with `resolve` canonicalizing paths
    /// for the round-trip check. Returns `path` unchanged when there is no
    /// mapping, when `path` is relative or outside the canonical prefix, or
    /// when the round-trip check fails. The result is not empty
    /// when `path` and both prefixes are not.
    pub fn to_logical<F: Fn(&str) -> Option<String>>(&self, path: &str, resolve: F) -> (res:
        String)
        requires
            forall|p: &str| call_requires(resolve, (p,)),
        ensures
            path@.len() > 0 && (self@ matches Some(m) && m.0.len() > 0 && m.1.len() > 0)
                ==> res@.len() > 0,
            res@ != path@ ==> exists|a: String, q: &str, b: String|
                #[trigger] call_ensures(resolve, (path,), Some(a)) && q@ == res@
                    && #[trigger] call_ensures(resolve, (q,), Some(b)) && resolved_alike(
                    style_of(self@),
                    a@,
                    b@,
                ),
            (forall|a: Option<String>| #[trigger] call_ensures(resolve, (path,), a) ==> a is None)
                ==> res@ == path@,
            translation_target_of(self@, path@, TranslationDirection::ToLogical) matches Some(t) ==> ((forall|
                a: Option<String>,
            | #[trigger] call_ensures(resolve, (path,), a) ==> a is Some) && (forall|
                q: &str,
                b: Option<String>,
            | q@ == t && #[trigger] call_ensures(resolve, (q,), b) ==> b is Some) && (forall|
                a: Option<String>,
                q: &str,
                b: Option<String>,
            |
                #[trigger] call_ensures(resolve, (path,), a) && q@ == t && #[trigger] call_ensures(
                    resolve,
                    (q,),
                    b,
                ) && a is Some && b is Some ==> resolved_alike(style_of(self@), a->0@, b->0@))
                ==> res@ == t),
            translation_target_of(self@, path@, TranslationDirection::ToLogical) is None
                ==> res@ == path@,
            translation_target_of(self@, path@, TranslationDirection::ToLogical) matches Some(t)
                ==> exists|a: Option<String>|
                #[trigger] call_ensures(resolve, (path,), a) && (a is None ==> res@ == path@) && (
                a is Some ==> exists|q: &str, b: Option<String>|
                    q@ == t && #[trigger] call_ensures(resolve, (q,), b) && res@ == settled(
                        style_of(self@),
                        path@,
                        t,
                        a.deep_view(),
                        b.deep_view(),
                    )),
    {
        self.translate(path, TranslationDirection::ToLogical, resolve)
    }

    /// Translates a logical (symlink-preserving) path to its canonical
    /// (symlink-resolved) equivalent, with `resolve` canonicalizing paths
    /// for the round-trip check. Returns `path` unchanged when there is no
    /// mapping, when `path` is relative or outside the logical prefix, or
    /// when the round-trip check fails. The result is not empty
    /// when `path` and both prefixes are not.
    pub fn to_canonical<F: Fn(&str) -> Option<String>>(&self, path: &str, resolve: F) -> (res:
        String)
        requires
            forall|p: &str| call_requires(resolve, (p,)),
        ensures
            path@.len() > 0 && (self@ matches Some(m) && m.0.len() > 0 && m.1.len() > 0)
                ==> res@.len() > 0,
            res@ != path@ ==> exists|a: String, q: &str, b: String|
                #[trigger] call_ensures(resolve, (path,), Some(a)) && q@ == res@
                    && #[trigger] call_ensures(resolve, (q,), Some(b)) && resolved_alike(
                    style_of(self@),
                    a@,
                    b@,
                ),
            (forall|a: Option<String>| #[trigger] call_ensures(resolve, (path,), a) ==> a is None)
                ==> res@ == path@,
            translation_target_of(self@, path@, TranslationDirection::ToCanonical) matches Some(t) ==> ((forall|
                a: Option<String>,
            | #[trigger] call_ensures(resolve, (path,), a) ==> a is Some) && (forall|
                q: &str,
                b: Option<String>,
            | q@ == t && #[trigger] call_ensures(resolve, (q,), b) ==> b is Some) && (forall|
                a: Option<String>,
                q: &str,
                b: Option<String>,
            |
                #[trigger] call_ensures(resolve, (path,), a) && q@ == t && #[trigger] call_ensures(
                    resolve,
                    (q,),
                    b,
                ) && a is Some && b is Some ==> resolved_alike(style_of(self@), a->0@, b->0@))
                ==> res@ == t),
            translation_target_of(self@, path@, TranslationDirection::ToCanonical) is None
                ==> res@ == path@,
            translation_target_of(self@, path@, TranslationDirection::ToCanonical) matches Some(t)
                ==> exists|a: Option<String>|
                #[trigger] call_ensures(resolve, (path,), a) && (a is None ==> res@ == path@) && (
                a is Some ==> exists|q: &str, b: Option<String>|
                    q@ == t && #[trigger] call_ensures(resolve, (q,), b) && res@ == settled(
                        style_of(self@),
                        path@,
                        t,
                        a.deep_view(),
                        b.deep_view(),
                    )),
    {
        self.translate(path, TranslationDirection::ToCanonical, resolve)
    }
}

} // verus!
