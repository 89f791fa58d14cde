//! How translations in the two directions undo each other under Windows
//! rules, for mappings between paths on drives (junctions, directory
//! symlinks and subst drives).
use vstd::prelude::*;

use crate::components::{
    alike, body_components, components_after_prefix, components_of, is_ascii_letter, is_drive,
    is_separator, leads, main_separator, root_component, same_component, same_path,
    same_path_component, windows_prefix_len, PathStyle,
};
use crate::context::{
    compared_form, joined, settled, translation_target_of, TranslationDirection,
};
use crate::extended::{verbatim_marker, verbatim_unc_marker};
use crate::laws::reversed;
use crate::render::{
    is_normal_component, is_prefix_component, join_segments, lemma_body_normal,
    lemma_body_of_join, rendered,
};

verus! {

/// Whether `s` is a path on a drive, from its root: a drive letter, a
/// colon and a separator (`C:\`), then anything.
pub open spec fn is_drive_rooted(s: Seq<char>) -> bool {
    s.len() >= 3 && is_ascii_letter(s[0]) && s[1] == ':' && is_separator(PathStyle::Windows, s[2])
}

/// The components of a path on a drive: the drive, the root, then names.
pub open spec fn drive_rooted_components(cs: Seq<Seq<char>>) -> bool {
    &&& cs.len() >= 2
    &&& is_drive(cs[0])
    &&& cs[1] == root_component(PathStyle::Windows)
    &&& forall|i: int| 2 <= i < cs.len() ==> is_normal_component(PathStyle::Windows, #[trigger] cs[i])
}

/// Whether no name of the path `s`, after its prefix and root, is written
/// like a drive (`x:`), which a path would take for a prefix of its own.
pub open spec fn names_no_drive(s: Seq<char>) -> bool {
    let cs = components_of(PathStyle::Windows, s);
    forall|i: int| 2 <= i < cs.len() ==> !is_drive(#[trigger] cs[i])
}

/// Under Windows rules every component after the first two is a name.
proof fn lemma_windows_names(s: Seq<char>)
    ensures
        forall|i: int|
            2 <= i < components_of(PathStyle::Windows, s).len() ==> is_normal_component(
                PathStyle::Windows,
                #[trigger] components_of(PathStyle::Windows, s)[i],
            ),
{
    let w = PathStyle::Windows;
    let p = windows_prefix_len(s);
    let rest = s.skip(p as int);
    lemma_body_normal(w, rest);
    lemma_body_normal(w, rest.skip(1));
    let cap = components_after_prefix(w, rest);
    assert forall|i: int| 1 <= i < cap.len() implies is_normal_component(w, #[trigger] cap[i]) by {
        if rest.len() > 0 && is_separator(w, rest[0]) {
            assert(cap[i] == body_components(w, rest.skip(1))[i - 1]);
        } else if rest.len() > 0 && rest[0] == '.' && (rest.len() == 1 || is_separator(w, rest[1])) {
            assert(cap[i] == body_components(w, rest.skip(1))[i - 1]);
        } else {
            assert(cap[i] == body_components(w, rest)[i]);
        }
    }
    let cs = components_of(w, s);
    assert forall|i: int| 2 <= i < cs.len() implies is_normal_component(w, #[trigger] cs[i]) by {
        if p > 0 {
            assert(cs[i] == cap[i - 1]);
        } else {
            assert(rest =~= s);
            assert(cs[i] == cap[i]);
        }
    }
}

/// A path on a drive has the components of one.
proof fn lemma_drive_rooted_components(s: Seq<char>)
    requires
        is_drive_rooted(s),
    ensures
        drive_rooted_components(components_of(PathStyle::Windows, s)),
{
    let w = PathStyle::Windows;
    let cs = components_of(w, s);
    assert(windows_prefix_len(s) == 2);
    let rest = s.skip(2);
    assert(rest[0] == s[2]);
    assert(cs == seq![s.take(2)] + (seq![root_component(w)] + body_components(w, rest.skip(1))));
    assert(cs[0] == s.take(2));
    assert(s.take(2)[0] == s[0] && s.take(2)[1] == s[1]);
    lemma_windows_names(s);
}

/// Components of a path on a drive, written out, read back as the same
/// components, and the path written is on that drive and has no `\\?\`
/// prefix to take off.
proof fn lemma_drive_rooted_round(cs: Seq<Seq<char>>)
    requires
        drive_rooted_components(cs),
    ensures
        is_drive_rooted(rendered(PathStyle::Windows, cs)),
        components_of(PathStyle::Windows, rendered(PathStyle::Windows, cs)) == cs,
        compared_form(PathStyle::Windows, rendered(PathStyle::Windows, cs)) == rendered(
            PathStyle::Windows,
            cs,
        ),
{
    let w = PathStyle::Windows;
    let sep = main_separator(w);
    let d = cs[0];
    assert(windows_prefix_len(d) == 2);
    assert(is_prefix_component(w, d));
    let names = cs.skip(2);
    assert(cs.skip(1)[0] == cs[1]);
    assert(cs.skip(1).skip(1) =~= names);
    let j = join_segments(sep, names);
    let r = rendered(w, cs);
    assert(r == d + seq![sep] + j);
    assert(r[0] == d[0] && r[1] == d[1] && r[2] == sep);
    assert(windows_prefix_len(r) == 2);
    assert(r.take(2) =~= d);
    assert(r.skip(2) =~= seq![sep] + j);
    assert(r.skip(2)[0] == sep);
    assert(r.skip(2).skip(1) =~= j);
    assert forall|i: int| 0 <= i < names.len() implies is_normal_component(w, #[trigger] names[i]) by {
        assert(names[i] == cs[i + 2]);
    }
    lemma_body_of_join(w, names);
    assert(components_of(w, r) == seq![d] + (seq![root_component(w)] + names));
    assert(components_of(w, r) =~= cs);
    assert(verbatim_marker()[0] == '\\');
    assert(verbatim_unc_marker()[0] == '\\');
    assert(!verbatim_marker().is_prefix_of(r));
    assert(!verbatim_unc_marker().is_prefix_of(r));
}

/// A name that is not written like a drive is neither a prefix nor the
/// root, so a destination prefix takes it as it is.
proof fn lemma_joined_names(base: Seq<Seq<char>>, rest: Seq<Seq<char>>)
    requires
        forall|i: int| 0 <= i < rest.len() ==> is_normal_component(PathStyle::Windows, #[trigger] rest[i]),
        rest.len() > 0 ==> !is_drive(rest[0]),
    ensures
        joined(PathStyle::Windows, base, rest) == base + rest,
{
    let w = PathStyle::Windows;
    if rest.len() > 0 {
        let c = rest[0];
        assert(is_normal_component(w, c));
        if is_prefix_component(w, c) {
            assert(c.len() > 0);
            assert(!is_separator(w, c[0]));
            assert(windows_prefix_len(c) == 2);
            assert(is_drive(c));
        }
        if c == root_component(w) {
            assert(c[0] == '\\');
        }
    }
}

/// Translating a path and translating the result back gives the same path
/// again under Windows rules (drive letters in either case), when both
/// prefixes of the mapping are paths on a drive from its root and no name
/// in the path is written like a drive.
pub proof fn law_translation_round_trip_windows(
    canonical_prefix: Seq<char>,
    logical_prefix: Seq<char>,
    path: Seq<char>,
    direction: TranslationDirection,
)
    requires
        is_drive_rooted(canonical_prefix),
        is_drive_rooted(logical_prefix),
        names_no_drive(compared_form(PathStyle::Windows, path)),
        translation_target_of(Some((canonical_prefix, logical_prefix, PathStyle::Windows)), path, direction)
            is Some,
    ensures
        ({
            let m = Some((canonical_prefix, logical_prefix, PathStyle::Windows));
            let there = translation_target_of(m, path, direction)->0;
            let back = translation_target_of(m, there, reversed(direction));
            &&& back is Some
            &&& is_drive_rooted(there)
            &&& is_drive_rooted(back->0)
            &&& compared_form(PathStyle::Windows, back->0) == back->0
            &&& same_path(
                PathStyle::Windows,
                components_of(PathStyle::Windows, back->0),
                components_of(PathStyle::Windows, compared_form(PathStyle::Windows, path)),
            )
        }),
{
    let w = PathStyle::Windows;
    let m = Some((canonical_prefix, logical_prefix, w));
    let (from, to) = match direction {
        TranslationDirection::ToLogical => (canonical_prefix, logical_prefix),
        TranslationDirection::ToCanonical => (logical_prefix, canonical_prefix),
    };
    let pc = components_of(w, compared_form(w, path));
    let fc = components_of(w, from);
    let tc = components_of(w, to);
    lemma_drive_rooted_components(from);
    lemma_drive_rooted_components(to);
    lemma_windows_names(compared_form(w, path));
    assert(leads(w, fc, pc));
    let rest = pc.skip(fc.len() as int);
    assert forall|i: int| 0 <= i < rest.len() implies is_normal_component(w, #[trigger] rest[i]) by {
        assert(rest[i] == pc[fc.len() + i]);
    }
    if rest.len() > 0 {
        assert(rest[0] == pc[fc.len() as int]);
    }
    lemma_joined_names(tc, rest);
    let there_comps = tc + rest;
    assert forall|i: int| 2 <= i < there_comps.len() implies is_normal_component(
        w,
        #[trigger] there_comps[i],
    ) by {
        if i < tc.len() {
            assert(there_comps[i] == tc[i]);
        } else {
            assert(there_comps[i] == rest[i - tc.len()]);
        }
    }
    assert(there_comps[0] == tc[0] && there_comps[1] == tc[1]);
    let there = rendered(w, there_comps);
    assert(translation_target_of(m, path, direction) == Some(there));
    lemma_drive_rooted_round(there_comps);
    assert(windows_prefix_len(there) == 2);
    assert(leads(w, tc, there_comps)) by {
        assert forall|i: int| 0 <= i < tc.len() implies #[trigger] same_path_component(
            w,
            tc[i],
            there_comps[i],
        ) by {
            assert(there_comps[i] == tc[i]);
        }
    }
    assert(there_comps.skip(tc.len() as int) =~= rest);
    lemma_joined_names(fc, rest);
    let back_comps = fc + rest;
    assert forall|i: int| 2 <= i < back_comps.len() implies is_normal_component(
        w,
        #[trigger] back_comps[i],
    ) by {
        if i < fc.len() {
            assert(back_comps[i] == fc[i]);
        } else {
            assert(back_comps[i] == rest[i - fc.len()]);
        }
    }
    assert(back_comps[0] == fc[0] && back_comps[1] == fc[1]);
    lemma_drive_rooted_round(back_comps);
    assert(translation_target_of(m, there, reversed(direction)) == Some(rendered(w, back_comps)));
    assert forall|i: int| 0 <= i < back_comps.len() implies #[trigger] same_path_component(
        w,
        back_comps[i],
        pc[i],
    ) by {
        if i < fc.len() {
            assert(back_comps[i] == fc[i]);
            assert(same_path_component(w, fc[i], pc[i]));
        } else {
            assert(back_comps[i] == rest[i - fc.len()]);
            assert(rest[i - fc.len()] == pc[i]);
        }
    }
}

/// Translating a path on a drive to its logical form and the result back to
/// its canonical form gives the same path again under Windows rules, and
/// the way back passes its check, when both prefixes are paths on a drive
/// from its root, no name in the path is written like a drive, the first
/// translation passed its check, and the resolver gives one answer for
/// paths that are the same path once their `\\?\` prefixes are taken off.
pub proof fn law_resolved_round_trip_windows(
    canonical_prefix: Seq<char>,
    logical_prefix: Seq<char>,
    path: Seq<char>,
    resolve: spec_fn(Seq<char>) -> Option<Seq<char>>,
)
    requires
        is_drive_rooted(canonical_prefix),
        is_drive_rooted(logical_prefix),
        names_no_drive(compared_form(PathStyle::Windows, path)),
        forall|x: Seq<char>, y: Seq<char>|
            same_path(
                PathStyle::Windows,
                components_of(PathStyle::Windows, compared_form(PathStyle::Windows, x)),
                components_of(PathStyle::Windows, compared_form(PathStyle::Windows, y)),
            ) ==> #[trigger] resolve(x) == #[trigger] resolve(y),
        translation_target_of(
            Some((canonical_prefix, logical_prefix, PathStyle::Windows)),
            path,
            TranslationDirection::ToLogical,
        ) is Some,
        ({
            let m = Some((canonical_prefix, logical_prefix, PathStyle::Windows));
            let there = translation_target_of(m, path, TranslationDirection::ToLogical)->0;
            let w = PathStyle::Windows;
            &&& resolve(path) is Some
            &&& resolve(there) is Some
            &&& alike(
                w,
                components_of(w, compared_form(w, resolve(path)->0)),
                components_of(w, compared_form(w, resolve(there)->0)),
            )
        }),
    ensures
        ({
            let m = Some((canonical_prefix, logical_prefix, PathStyle::Windows));
            let there = translation_target_of(m, path, TranslationDirection::ToLogical)->0;
            let back = translation_target_of(m, there, TranslationDirection::ToCanonical);
            let w = PathStyle::Windows;
            &&& back is Some
            &&& settled(w, there, back->0, resolve(there), resolve(back->0)) == back->0
            &&& same_path(
                w,
                components_of(w, back->0),
                components_of(w, compared_form(w, path)),
            )
        }),
{
    let w = PathStyle::Windows;
    law_translation_round_trip_windows(
        canonical_prefix,
        logical_prefix,
        path,
        TranslationDirection::ToLogical,
    );
    let m = Some((canonical_prefix, logical_prefix, w));
    let there = translation_target_of(m, path, TranslationDirection::ToLogical)->0;
    let back = translation_target_of(m, there, TranslationDirection::ToCanonical)->0;
    assert(resolve(back) == resolve(path));
    let a = components_of(w, compared_form(w, resolve(path)->0));
    let b = components_of(w, compared_form(w, resolve(there)->0));
    assert forall|i: int| 0 <= i < b.len() implies #[trigger] same_component(w, b[i], a[i]) by {
        assert(same_component(w, a[i], b[i]));
    }
}

} // verus!
