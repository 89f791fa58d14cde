//! How a sequence of components is written back as a path, and the proof
//! that a Unix path written this way reads back as the same components.
use vstd::prelude::*;

use crate::components::{
    body_components, components_after_prefix, components_of, first_separator, has_implicit_root,
    is_ascii_letter, is_separator, lemma_body_last, lemma_body_split, lemma_first_separator_props,
    main_separator, names_component, prefix_len, root_component, windows_prefix_len,
    windows_prefix_length, PathStyle,
};

verus! {

/// A component that stands after the first one: a non-empty name other than
/// `.`, with no separator of `style` in it.
pub open spec fn is_normal_component(style: PathStyle, c: Seq<char>) -> bool {
    names_component(c) && forall|j: int| 0 <= j < c.len() ==> !is_separator(style, c[j])
}

/// The shape of every sequence of components that a Unix path has: the
/// first one may be the root `/` or the current directory `.`, all others
/// are normal.
pub open spec fn well_formed(cs: Seq<Seq<char>>) -> bool {
    &&& forall|i: int| 0 < i < cs.len() ==> is_normal_component(PathStyle::Unix, #[trigger] cs[i])
    &&& cs.len() > 0 ==> (cs[0] == seq!['/'] || cs[0] == seq!['.'] || is_normal_component(
        PathStyle::Unix,
        cs[0],
    ))
}

/// The segments `cs` joined by single separators `sep`.
pub open spec fn join_segments(sep: char, cs: Seq<Seq<char>>) -> Seq<char>
    decreases cs.len(),
{
    if cs.len() == 0 {
        Seq::empty()
    } else if cs.len() == 1 {
        cs[0]
    } else {
        cs[0] + seq![sep] + join_segments(sep, cs.drop_first())
    }
}

/// The Unix path that the components `cs` make: the root is written as a
/// leading `/`, and every other component is separated from the one before
/// it by a single `/`.
pub open spec fn unix_rendered(cs: Seq<Seq<char>>) -> Seq<char> {
    if cs.len() > 0 && cs[0] == seq!['/'] {
        seq!['/'] + join_segments('/', cs.drop_first())
    } else {
        join_segments('/', cs)
    }
}

/// Every component read from the body of a path is normal.
pub proof fn lemma_body_normal(style: PathStyle, t: Seq<char>)
    ensures
        forall|i: int| 0 <= i < body_components(style, t).len() ==> is_normal_component(
            style,
            #[trigger] body_components(style, t)[i],
        ),
    decreases t.len(),
{
    let i = first_separator(style, t);
    lemma_first_separator_props(style, t);
    let seg = t.take(i as int);
    if i < t.len() {
        lemma_body_normal(style, t.skip(i + 1 as int));
    }
    let rest = if i < t.len() {
        body_components(style, t.skip(i + 1 as int))
    } else {
        Seq::empty()
    };
    assert(body_components(style, t) == (if names_component(seg) {
        seq![seg] + rest
    } else {
        rest
    }));
    if names_component(seg) {
        assert forall|k: int| 0 <= k < body_components(style, t).len() implies is_normal_component(
            style,
            #[trigger] body_components(style, t)[k],
        ) by {
            if k == 0 {
                assert(body_components(style, t)[k] == seg);
                assert forall|j: int| 0 <= j < seg.len() implies !is_separator(style, seg[j]) by {
                    assert(seg[j] == t[j]);
                }
            } else {
                assert(body_components(style, t)[k] == rest[k - 1]);
            }
        }
    }
}


/// Whether `c` is a whole Windows prefix (a drive or a UNC share); never on
/// Unix.
pub open spec fn is_prefix_component(style: PathStyle, c: Seq<char>) -> bool {
    style == PathStyle::Windows && windows_prefix_len(c) > 0 && windows_prefix_len(c) == c.len()
}

/// The path that the components `cs` make when pushed one after the other
/// onto an empty path: a prefix is written first, the root as one
/// separator, and every other component is separated from the one before it
/// by one separator, except right after a bare drive such as `C:`.
pub open spec fn rendered(style: PathStyle, cs: Seq<Seq<char>>) -> Seq<char> {
    let sep = main_separator(style);
    let has_prefix = cs.len() > 0 && is_prefix_component(style, cs[0]);
    let prefix = if has_prefix {
        cs[0]
    } else {
        Seq::empty()
    };
    let rest = if has_prefix {
        cs.skip(1)
    } else {
        cs
    };
    if rest.len() > 0 && rest[0] == seq![sep] {
        prefix + seq![sep] + join_segments(sep, rest.skip(1))
    } else if has_prefix && rest.len() > 0 && prefix.len() != 2 {
        prefix + seq![sep] + join_segments(sep, rest)
    } else {
        prefix + join_segments(sep, rest)
    }
}

/// A Windows prefix is never longer than the path it begins.
pub proof fn lemma_windows_prefix_len_bound(s: Seq<char>)
    ensures
        windows_prefix_len(s) <= s.len(),
{
    let w = PathStyle::Windows;
    if !(s.len() >= 2 && is_ascii_letter(s[0]) && s[1] == ':') && s.len() >= 2 && is_separator(
        w,
        s[0],
    ) && is_separator(w, s[1]) {
        lemma_first_separator_props(w, s.skip(2));
        let server_end = 2 + first_separator(w, s.skip(2));
        if server_end > 2 && server_end < s.len() {
            lemma_first_separator_props(w, s.skip(server_end + 1 as int));
        }
    }
}

/// Every component of a path is non-empty, and a non-empty path has at
/// least one component.
pub proof fn lemma_components_nonempty(style: PathStyle, s: Seq<char>)
    ensures
        forall|i: int|
            0 <= i < components_of(style, s).len() ==> #[trigger] components_of(style, s)[i].len()
                > 0,
        s.len() > 0 ==> components_of(style, s).len() > 0,
{
    let p = prefix_len(style, s);
    if style == PathStyle::Windows {
        lemma_windows_prefix_len_bound(s);
    }
    let rest = s.skip(p as int);
    lemma_body_normal(style, rest);
    lemma_body_normal(style, rest.skip(1));
    let cap = components_after_prefix(style, rest);
    assert forall|i: int| 0 <= i < cap.len() implies #[trigger] cap[i].len() > 0 by {
        if rest.len() > 0 && is_separator(style, rest[0]) {
            if i > 0 {
                assert(cap[i] == body_components(style, rest.skip(1))[i - 1]);
            }
        } else if rest.len() > 0 && rest[0] == '.' && (rest.len() == 1 || is_separator(
            style,
            rest[1],
        )) {
            if i > 0 {
                assert(cap[i] == body_components(style, rest.skip(1))[i - 1]);
            }
        } else {
            assert(cap[i] == body_components(style, rest)[i]);
        }
    }
    let cs = components_of(style, s);
    assert forall|i: int| 0 <= i < cs.len() implies #[trigger] cs[i].len() > 0 by {
        if p > 0 {
            if i > 0 && !has_implicit_root(style, s) {
                assert(cs[i] == cap[i - 1]);
            }
        } else {
            assert(rest =~= s);
            assert(cs[i] == cap[i]);
        }
    }
    if s.len() > 0 && p == 0 {
        assert(rest =~= s);
        if !(s.len() > 0 && is_separator(style, s[0])) && !(s.len() > 0 && s[0] == '.' && (s.len()
            == 1 || is_separator(style, s[1]))) {
            lemma_first_separator_props(style, s);
            let i = first_separator(style, s);
            let seg = s.take(i as int);
            assert(i > 0);
            if seg == seq!['.'] {
                assert(seg.len() == 1);
                assert(s[0] == seg[0]);
            }
            assert(names_component(seg));
            assert(body_components(style, s).len() > 0);
        }
    }
}

/// Components that begin with a non-empty one are written as a non-empty
/// path.
pub proof fn lemma_rendered_nonempty(style: PathStyle, cs: Seq<Seq<char>>)
    requires
        cs.len() > 0,
        cs[0].len() > 0,
    ensures
        rendered(style, cs).len() > 0,
{
    let sep = main_separator(style);
    if !is_prefix_component(style, cs[0]) && cs[0] != seq![sep] {
        if cs.len() == 1 {
            assert(join_segments(sep, cs) == cs[0]);
        } else {
            assert(join_segments(sep, cs) == cs[0] + seq![sep] + join_segments(sep, cs.drop_first()));
        }
        assert(Seq::<char>::empty() + join_segments(sep, cs) =~= join_segments(sep, cs));
    }
}

/// On Unix, `rendered` writes the root as a leading `/` and joins the rest.
pub proof fn lemma_rendered_unix(cs: Seq<Seq<char>>)
    ensures
        rendered(PathStyle::Unix, cs) == unix_rendered(cs),
{
    if cs.len() > 0 && cs[0] == seq!['/'] {
        assert(cs.skip(1) =~= cs.drop_first());
        assert(Seq::<char>::empty() + seq!['/'] + join_segments('/', cs.skip(1)) =~= seq!['/']
            + join_segments('/', cs.drop_first()));
    } else {
        assert(Seq::<char>::empty() + join_segments('/', cs) =~= join_segments('/', cs));
    }
}

/// The components of any path have the shape that `well_formed` describes.
pub proof fn lemma_components_well_formed(s: Seq<char>)
    ensures
        well_formed(components_of(PathStyle::Unix, s)),
{
    if s.len() > 0 && s[0] == '/' {
        lemma_body_normal(PathStyle::Unix, s.skip(1));
        let b = body_components(PathStyle::Unix, s.skip(1));
        assert forall|i: int| 0 < i < components_of(PathStyle::Unix, s).len() implies is_normal_component(
            PathStyle::Unix,
            #[trigger] components_of(PathStyle::Unix, s)[i],
        ) by {
            assert(components_of(PathStyle::Unix, s)[i] == b[i - 1]);
        }
    } else if s.len() > 0 && s[0] == '.' && (s.len() == 1 || s[1] == '/') {
        lemma_body_normal(PathStyle::Unix, s.skip(1));
        let b = body_components(PathStyle::Unix, s.skip(1));
        assert forall|i: int| 0 < i < components_of(PathStyle::Unix, s).len() implies is_normal_component(
            PathStyle::Unix,
            #[trigger] components_of(PathStyle::Unix, s)[i],
        ) by {
            assert(components_of(PathStyle::Unix, s)[i] == b[i - 1]);
        }
    } else {
        lemma_body_normal(PathStyle::Unix, s);
    }
}

/// Appending one segment to a join.
pub proof fn lemma_join_push(sep: char, xs: Seq<Seq<char>>, c: Seq<char>)
    ensures
        join_segments(sep, xs.push(c)) == (if xs.len() == 0 {
            c
        } else {
            join_segments(sep, xs) + seq![sep] + c
        }),
    decreases xs.len(),
{
    if xs.len() == 0 {
        assert(xs.push(c) =~= seq![c]);
    } else if xs.len() == 1 {
        assert(xs.push(c).drop_first() =~= seq![c]);
        assert(join_segments(sep, seq![c]) == c);
        assert(xs.push(c)[0] == xs[0]);
        assert(join_segments(sep, xs) == xs[0]);
    } else {
        assert(xs.push(c)[0] == xs[0]);
        assert(xs.push(c).drop_first() =~= xs.drop_first().push(c));
        lemma_join_push(sep, xs.drop_first(), c);
        assert(join_segments(sep, xs.push(c)) =~= xs[0] + seq![sep] + (join_segments(sep, xs.drop_first())
            + seq![sep] + c));
        assert(join_segments(sep, xs) + seq![sep] + c =~= xs[0] + seq![sep] + (join_segments(sep, 
            xs.drop_first(),
        ) + seq![sep] + c));
    }
}

/// Normal segments joined by separators read back as the same segments.
pub proof fn lemma_body_of_join(style: PathStyle, xs: Seq<Seq<char>>)
    requires
        forall|i: int| 0 <= i < xs.len() ==> is_normal_component(style, #[trigger] xs[i]),
    ensures
        body_components(style, join_segments(main_separator(style), xs)) == xs,
    decreases xs.len(),
{
    let sep = main_separator(style);
    if xs.len() == 0 {
        assert(body_components(style, Seq::<char>::empty()) =~= Seq::<Seq<char>>::empty());
    } else if xs.len() == 1 {
        assert(is_normal_component(style, xs[0]));
        lemma_body_last(style, xs[0]);
        assert(seq![xs[0]] =~= xs);
    } else {
        let a = xs[0];
        assert(is_normal_component(style, a));
        let rest = xs.drop_first();
        assert forall|i: int| 0 <= i < rest.len() implies is_normal_component(style, #[trigger] rest[i]) by {
            assert(rest[i] == xs[i + 1]);
        }
        lemma_body_of_join(style, rest);
        let t = join_segments(sep, xs);
        assert(t == a + seq![sep] + join_segments(sep, rest));
        assert forall|j: int| 0 <= j < a.len() implies !is_separator(style, t[j]) by {
            assert(t[j] == a[j]);
        }
        assert(t[a.len() as int] == sep);
        lemma_body_split(style, t, a.len() as int);
        assert(t.take(a.len() as int) =~= a);
        assert(t.skip(a.len() + 1 as int) =~= join_segments(sep, rest));
        assert(seq![a] + rest =~= xs);
    }
}

/// A well-formed sequence of components, written as a path, reads back as
/// the same components.
pub proof fn lemma_components_of_rendered(cs: Seq<Seq<char>>)
    requires
        well_formed(cs),
    ensures
        components_of(PathStyle::Unix, unix_rendered(cs)) == cs,
{
    if cs.len() == 0 {
        assert(body_components(PathStyle::Unix, Seq::<char>::empty()) =~= Seq::<Seq<char>>::empty());
    } else {
        let rest = cs.drop_first();
        assert forall|i: int| 0 <= i < rest.len() implies is_normal_component(PathStyle::Unix, #[trigger] rest[i]) by {
            assert(rest[i] == cs[i + 1]);
        }
        lemma_body_of_join(PathStyle::Unix, rest);
        let s = unix_rendered(cs);
        if cs[0] == seq!['/'] {
            assert(s.skip(1) =~= join_segments('/', rest));
            assert(seq![seq!['/']] + rest =~= cs);
        } else if cs[0] == seq!['.'] {
            if cs.len() == 1 {
                assert(s =~= seq!['.']);
                assert(body_components(PathStyle::Unix, s.skip(1)) =~= Seq::<Seq<char>>::empty()) by {
                    assert(s.skip(1) =~= Seq::<char>::empty());
                }
                assert(seq![seq!['.']] + Seq::<Seq<char>>::empty() =~= cs);
            } else {
                let u = s.skip(1);
                assert(u =~= seq!['/'] + join_segments('/', rest));
                lemma_body_split(PathStyle::Unix, u, 0);
                assert(u.take(0) =~= Seq::<char>::empty());
                assert(u.skip(1) =~= join_segments('/', rest));
                assert(seq![seq!['.']] + (Seq::<Seq<char>>::empty() + rest) =~= cs);
            }
        } else {
            let a = cs[0];
            assert(is_normal_component(PathStyle::Unix, a));
            assert forall|i: int| 0 <= i < cs.len() implies is_normal_component(PathStyle::Unix, #[trigger] cs[i]) by {}
            lemma_body_of_join(PathStyle::Unix, cs);
            if cs.len() == 1 {
                assert(s == a);
            } else {
                assert(s == a + seq!['/'] + join_segments('/', rest));
                if a.len() > 1 {
                    assert(s[1] == a[1]);
                }
            }
            assert(s[0] == a[0]);
            if a.len() == 1 {
                assert(a =~= seq![a[0]]);
            }
        }
    }
}


/// Whether the component `c` is the root under `style`.
pub fn is_root_component(style: PathStyle, c: &String) -> (b: bool)
    ensures
        b == (c@ == root_component(style)),
{
    let cs = c.as_str();
    if cs.unicode_len() == 1 {
        let x = cs.get_char(0);
        let r = match style {
            PathStyle::Unix => x == '/',
            PathStyle::Windows => x == '\\',
        };
        if r {
            assert(c@ =~= root_component(style));
        } else {
            assert(c@[0] != root_component(style)[0]);
        }
        r
    } else {
        false
    }
}

/// Whether `c` is a whole Windows prefix under `style`.
pub fn is_prefix_string(style: PathStyle, c: &String) -> (b: bool)
    ensures
        b == is_prefix_component(style, c@),
{
    match style {
        PathStyle::Unix => false,
        PathStyle::Windows => {
            let p = windows_prefix_length(c.as_str());
            p > 0 && p == c.as_str().unicode_len()
        },
    }
}

/// The separator that `style` writes, as a string.
fn separator_str(style: PathStyle) -> (s: &'static str)
    ensures
        s@ == seq![main_separator(style)],
{
    match style {
        PathStyle::Unix => {
            proof {
                reveal_strlit("/");
            }
            let s = "/";
            assert(s@ =~= seq!['/']);
            s
        },
        PathStyle::Windows => {
            proof {
                reveal_strlit("\\");
            }
            let s = "\\";
            assert(s@ =~= seq!['\\']);
            s
        },
    }
}

/// Writes the first `count` components of `comps` as a path under `style`.
pub fn render_components(style: PathStyle, comps: &Vec<String>, count: usize) -> (path: String)
    requires
        count <= comps.len(),
    ensures
        path@ == rendered(style, comps.deep_view().take(count as int)),
{
    let ghost cs = comps.deep_view().take(count as int);
    let ghost sep = main_separator(style);
    let sep_str = separator_str(style);
    let has_prefix = count > 0 && is_prefix_string(style, &comps[0]);
    let mut out = String::new();
    let mut start: usize = 0;
    if has_prefix {
        out.append(comps[0].as_str());
        start = 1;
    }
    let ghost prefix = out@;
    let rooted = start < count && is_root_component(style, &comps[start]);
    if rooted {
        out.append(sep_str);
        start = start + 1;
    } else if has_prefix && start < count && comps[0].as_str().unicode_len() != 2 {
        out.append(sep_str);
    }
    let ghost head = out@;
    assert(cs.subrange(start as int, start as int) =~= Seq::<Seq<char>>::empty());
    assert(out@ =~= head + join_segments(sep, cs.subrange(start as int, start as int)));
    let mut i = start;
    while i < count
        invariant
            count <= comps.len(),
            cs == comps.deep_view().take(count as int),
            sep == main_separator(style),
            sep_str@ == seq![sep],
            start <= i <= count,
            out@ == head + join_segments(sep, cs.subrange(start as int, i as int)),
        decreases count - i,
    {
        let ghost prev = cs.subrange(start as int, i as int);
        assert(cs.subrange(start as int, i + 1) =~= prev.push(cs[i as int]));
        assert(comps[i as int]@ == cs[i as int]);
        proof {
            lemma_join_push(sep, prev, cs[i as int]);
        }
        if i > start {
            out.append(sep_str);
        }
        out.append(comps[i].as_str());
        assert(out@ =~= head + join_segments(sep, cs.subrange(start as int, i + 1)));
        i += 1;
    }
    proof {
        let rest = if has_prefix {
            cs.skip(1)
        } else {
            cs
        };
        if has_prefix {
            assert(prefix == cs[0]);
        } else {
            assert(prefix =~= Seq::<char>::empty());
        }
        if rooted {
            let k: int = if has_prefix {
                1
            } else {
                0
            };
            assert(rest[0] == cs[k]);
            assert(rest.skip(1) =~= cs.subrange(start as int, count as int));
        } else {
            assert(rest =~= cs.subrange(start as int, count as int));
            if rest.len() > 0 {
                assert(rest[0] == cs[start as int]);
            }
        }
    }
    out
}

} // verus!
