use logical_path::{LogicalPathContext, PathStyle, PrefixMapping, TranslationDirection};

fn assert_send_sync<T: Send + Sync>() {}

fn ctx_with_mapping(canonical: &str, logical: &str) -> LogicalPathContext {
    ctx_with_style_mapping(PathStyle::Unix, canonical, logical)
}

fn ctx_with_windows_mapping(canonical: &str, logical: &str) -> LogicalPathContext {
    ctx_with_style_mapping(PathStyle::Windows, canonical, logical)
}

fn ctx_with_style_mapping(style: PathStyle, canonical: &str, logical: &str) -> LogicalPathContext {
    LogicalPathContext {
        mapping: Some(PrefixMapping {
            canonical_prefix: canonical.to_string(),
            logical_prefix: logical.to_string(),
            style,
        }),
    }
}

fn ctx_no_mapping() -> LogicalPathContext {
    LogicalPathContext { mapping: None }
}

/// A resolver for a file system that holds nothing.
fn resolve_nothing(_path: &str) -> Option<String> {
    None
}

/// A resolver for a file system where `link` is a symlink to `real`, and
/// every path under either of them exists.
fn resolve_link(link: &'static str, real: &'static str) -> impl Fn(&str) -> Option<String> {
    move |path: &str| {
        if path == link || path.starts_with(&format!("{}/", link)) {
            Some(format!("{}{}", real, &path[link.len()..]))
        } else if path == real || path.starts_with(&format!("{}/", real)) {
            Some(path.to_string())
        } else {
            None
        }
    }
}

#[test]
fn has_mapping_returns_false_when_none() {
    let ctx = LogicalPathContext { mapping: None };
    assert!(!ctx.has_mapping());
}

#[test]
fn has_mapping_returns_true_when_some() {
    let ctx = LogicalPathContext {
        mapping: Some(PrefixMapping {
            canonical_prefix: "/mnt/wsl/workspace".to_string(),
            logical_prefix: "/workspace".to_string(),
            style: PathStyle::Unix,
        }),
    };
    assert!(ctx.has_mapping());
}

#[test]
fn logical_path_context_is_send_and_sync() {
    assert_send_sync::<LogicalPathContext>();
}

#[test]
fn default_returns_no_mapping() {
    let ctx = LogicalPathContext::default();
    assert!(!ctx.has_mapping());
    assert_eq!(ctx, LogicalPathContext { mapping: None });
}

#[test]
fn detect_from_pwd_none_returns_no_mapping() {
    let cwd = "/home/user/project";
    let ctx = LogicalPathContext::detect_from(None, cwd, resolve_nothing);
    assert!(!ctx.has_mapping());
}

#[test]
fn detect_from_pwd_matches_canonical_without_resolving() {
    let cwd = "/home/user/project";
    let ctx = LogicalPathContext::detect_from(Some("/home/user/project"), cwd, |_p: &str| {
        panic!("a $PWD equal to the working directory needs no resolving")
    });
    assert!(!ctx.has_mapping());
}

#[test]
fn detect_from_stale_pwd_no_mapping() {
    let cwd = "/home/user/project";
    let ctx = LogicalPathContext::detect_from(
        Some("/nonexistent/stale/path/project"),
        cwd,
        resolve_nothing,
    );
    assert!(!ctx.has_mapping());
}

#[test]
fn detect_from_empty_pwd_no_mapping() {
    let cwd = "/home/user/project";
    let ctx = LogicalPathContext::detect_from(Some(""), cwd, resolve_nothing);
    assert!(!ctx.has_mapping());
}

#[test]
fn detect_from_divergent_pwd_no_mapping() {
    // $PWD is a real directory, but it resolves somewhere else.
    let ctx = LogicalPathContext::detect_from(Some("/tmp/a"), "/tmp/b", |p: &str| {
        Some(p.to_string())
    });
    assert!(!ctx.has_mapping());
}

#[test]
fn detect_from_symlinked_pwd_finds_mapping() {
    let resolve = resolve_link("/workspace", "/mnt/wsl/workspace");
    let ctx = LogicalPathContext::detect_from(
        Some("/workspace/project/src"),
        "/mnt/wsl/workspace/project/src",
        resolve,
    );
    assert_eq!(ctx, ctx_with_mapping("/mnt/wsl", "/"));
}

#[test]
fn detect_from_cwd_equal_paths_no_mapping() {
    let ctx = LogicalPathContext::detect_from_cwd(r"C:\Users\dev\project", r"C:\Users\dev\project");
    assert!(!ctx.has_mapping());
}

#[test]
fn detect_from_cwd_different_paths_with_common_suffix() {
    let ctx = LogicalPathContext::detect_from_cwd(r"S:\workspace\src", r"D:\projects\workspace\src");
    assert!(ctx.has_mapping());
    assert_eq!(ctx, ctx_with_windows_mapping(r"D:\projects", r"S:\"));
}

#[test]
fn detect_from_cwd_mapped_drive() {
    let ctx = LogicalPathContext::detect_from_cwd(r"Z:\folder", r"\\server\share\folder");
    assert_eq!(ctx, ctx_with_windows_mapping(r"\\server\share\", r"Z:\"));
}

#[test]
fn detect_from_cwd_subst_drive() {
    let ctx = LogicalPathContext::detect_from_cwd(r"S:\project", r"C:\long\path\project");
    assert_eq!(ctx, ctx_with_windows_mapping(r"C:\long\path", r"S:\"));
}

#[test]
fn detect_subst_has_mapping() {
    // The working directory is the root of S:, a subst drive for C:\long\path.
    let ctx = LogicalPathContext::detect_from_cwd(r"S:\", r"C:\long\path");
    assert!(ctx.has_mapping());
    assert_eq!(ctx, ctx_with_windows_mapping(r"C:\long\path", r"S:\"));
}

#[test]
fn detect_from_cwd_at_mapped_drive_root_has_mapping() {
    let ctx = LogicalPathContext::detect_from_cwd(r"Z:\", r"\\server\share");
    assert_eq!(ctx, ctx_with_windows_mapping(r"\\server\share\", r"Z:\"));
}

#[test]
fn detect_from_cwd_drive_letter_case_is_the_same_path() {
    let ctx = LogicalPathContext::detect_from_cwd(r"c:\Users\dev", r"C:\Users\dev");
    assert!(!ctx.has_mapping());
}

#[test]
fn detect_from_cwd_case_only_difference_no_mapping() {
    let ctx = LogicalPathContext::detect_from_cwd(r"C:\Users\Dev", r"c:\users\dev");
    assert!(!ctx.has_mapping());
}

#[test]
fn detect_from_cwd_different_paths_no_common_suffix() {
    let ctx = LogicalPathContext::detect_from_cwd(r"X:\completely\different", r"Y:\totally\unrelated");
    assert!(!ctx.has_mapping());
}

#[test]
fn detect_from_cwd_identical_returns_fallback() {
    let path = r"C:\Users\dev\project";
    let ctx = LogicalPathContext::detect_from_cwd(path, path);
    assert!(!ctx.has_mapping());

    let input = r"C:\Users\dev\project\src\main.rs";
    assert_eq!(ctx.to_logical(input, resolve_nothing), input);
    assert_eq!(ctx.to_canonical(input, resolve_nothing), input);
}

#[test]
fn windows_relative_path_returns_unchanged() {
    let ctx = ctx_with_windows_mapping(r"D:\projects\workspace", r"C:\workspace");
    let input = r"src\main.rs";
    assert_eq!(ctx.to_logical(input, resolve_nothing), input);
    assert_eq!(ctx.to_canonical(input, resolve_nothing), input);
}

#[test]
fn to_logical_returns_input_when_not_under_prefix() {
    let ctx = ctx_with_mapping("/mnt/wsl/workspace", "/workspace");
    let input = "/some/other/path";
    let result = ctx.to_logical(input, resolve_nothing);
    assert_eq!(result, input);
}

#[test]
fn to_logical_returns_input_when_no_mapping() {
    let ctx = ctx_no_mapping();
    let input = "/home/user/project/src/main.rs";
    let result = ctx.to_logical(input, resolve_nothing);
    assert_eq!(result, input);
}

#[test]
fn to_logical_returns_input_for_relative_path() {
    let ctx = ctx_with_mapping("/mnt/wsl/workspace", "/workspace");
    let input = "src/main.rs";
    let result = ctx.to_logical(input, resolve_nothing);
    assert_eq!(result, input);
}

#[test]
fn to_canonical_returns_input_when_not_under_prefix() {
    let ctx = ctx_with_mapping("/mnt/wsl/workspace", "/workspace");
    let input = "/some/other/path";
    let result = ctx.to_canonical(input, resolve_nothing);
    assert_eq!(result, input);
}

#[test]
fn to_canonical_returns_input_when_no_mapping() {
    let ctx = ctx_no_mapping();
    let input = "/home/user/project/src/main.rs";
    let result = ctx.to_canonical(input, resolve_nothing);
    assert_eq!(result, input);
}

#[test]
fn to_canonical_returns_input_for_relative_path() {
    let ctx = ctx_with_mapping("/mnt/wsl/workspace", "/workspace");
    let input = "../foo/bar.rs";
    let result = ctx.to_canonical(input, resolve_nothing);
    assert_eq!(result, input);
}

#[test]
fn to_logical_translates_under_canonical_prefix_when_resolved() {
    let ctx = ctx_with_mapping("/tmp/t/real", "/tmp/t/link");
    let result = ctx.to_logical("/tmp/t/real/src", resolve_link("/tmp/t/link", "/tmp/t/real"));
    assert_eq!(result, "/tmp/t/link/src");
}

#[test]
fn to_canonical_translates_under_logical_prefix_when_resolved() {
    let ctx = ctx_with_mapping("/tmp/t/real", "/tmp/t/link");
    let result = ctx.to_canonical("/tmp/t/link/src", resolve_link("/tmp/t/link", "/tmp/t/real"));
    assert_eq!(result, "/tmp/t/real/src");
}

#[test]
fn to_logical_falls_back_when_candidate_does_not_resolve() {
    // No symlink behind the logical prefix: the candidate does not exist.
    let ctx = ctx_with_mapping("/tmp/t/real", "/tmp/t/bogus_link");
    let resolve = |p: &str| {
        if p.starts_with("/tmp/t/real") {
            Some(p.to_string())
        } else {
            None
        }
    };
    let input = "/tmp/t/real/src";
    assert_eq!(ctx.to_logical(input, resolve), input);
}

#[test]
fn to_canonical_falls_back_when_input_does_not_resolve() {
    let ctx = ctx_with_mapping("/tmp/t/bogus_real", "/tmp/t/link");
    let input = "/tmp/t/link/src";
    assert_eq!(ctx.to_canonical(input, resolve_nothing), input);
}

#[test]
fn to_logical_falls_back_when_round_trip_disagrees() {
    // Both paths exist, but they are different places.
    let ctx = ctx_with_mapping("/data", "/home");
    let input = "/data/x";
    assert_eq!(ctx.to_logical(input, |p: &str| Some(p.to_string())), input);
}

#[test]
fn to_logical_idempotent_on_logical_path() {
    let ctx = ctx_with_mapping("/tmp/t/real", "/tmp/t/link");
    let resolve = resolve_link("/tmp/t/link", "/tmp/t/real");
    let logical_path = "/tmp/t/link/src";
    assert_eq!(ctx.to_logical(logical_path, &resolve), logical_path);
    let canonical_path = "/tmp/t/real/src";
    assert_eq!(ctx.to_canonical(canonical_path, &resolve), canonical_path);
}

#[test]
fn roundtrip_through_detected_mapping() {
    let resolve = resolve_link("/tmp/t/link", "/tmp/t/real");
    let ctx = LogicalPathContext::detect_from(Some("/tmp/t/link/src"), "/tmp/t/real/src", &resolve);
    assert!(ctx.has_mapping());
    let subdirs = [
        "src", "src/main", "src/lib", "tests", "tests/unit", "docs", "docs/api", "build",
        "build/debug", "config",
    ];
    for subdir in &subdirs {
        let canonical = format!("/tmp/t/real/{}", subdir);
        let logical = ctx.to_logical(&canonical, &resolve);
        assert_eq!(logical, format!("/tmp/t/link/{}", subdir), "to_logical failed for {}", subdir);
        let back = ctx.to_canonical(&logical, &resolve);
        assert_eq!(back, canonical, "to_canonical round-trip failed for {}", subdir);
    }
}

#[test]
fn translation_target_replaces_prefix() {
    let ctx = ctx_with_mapping("/mnt/wsl", "/");
    assert_eq!(
        ctx.translation_target("/mnt/wsl/workspace/project/src/main.rs", TranslationDirection::ToLogical),
        Some("/workspace/project/src/main.rs".to_string())
    );
    assert_eq!(
        ctx.translation_target("/workspace/project", TranslationDirection::ToCanonical),
        Some("/mnt/wsl/workspace/project".to_string())
    );
    assert_eq!(
        ctx.translation_target("/mnt/wslx/a", TranslationDirection::ToLogical),
        None
    );
    assert_eq!(
        ctx.translation_target("/mnt//wsl/./a/", TranslationDirection::ToLogical),
        Some("/a".to_string())
    );
}

#[test]
fn translation_target_of_the_prefix_itself() {
    let ctx = ctx_with_mapping("/tmp/t/real", "/tmp/t/link");
    assert_eq!(
        ctx.translation_target("/tmp/t/real", TranslationDirection::ToLogical),
        Some("/tmp/t/link".to_string())
    );
}

/// A Windows resolver where `C:\link` is a junction to `C:\real`; it answers
/// with `\\?\`-prefixed paths, as `canonicalize()` does on Windows.
fn resolve_junction(path: &str) -> Option<String> {
    let plain = path.strip_prefix(r"\\?\").unwrap_or(path);
    if let Some(rest) = plain.strip_prefix(r"C:\link") {
        Some(format!(r"\\?\C:\real{}", rest))
    } else if plain.starts_with(r"C:\real") {
        Some(format!(r"\\?\{}", plain))
    } else {
        None
    }
}

/// A Windows resolver where `S:` is a subst drive for `C:\long\path`.
fn resolve_subst(path: &str) -> Option<String> {
    if let Some(rest) = path.strip_prefix(r"S:") {
        Some(format!(r"\\?\C:\long\path{}", rest.trim_end_matches('\\')))
    } else if path.starts_with(r"C:\long\path") {
        Some(format!(r"\\?\{}", path))
    } else {
        None
    }
}

#[test]
fn detect_subst_to_logical() {
    let ctx = LogicalPathContext::detect_from_cwd(r"S:\", r"C:\long\path");
    assert_eq!(ctx.to_logical(r"C:\long\path\src", resolve_subst), r"S:\src");
}

#[test]
fn subst_to_logical_outside_mapping() {
    let ctx = LogicalPathContext::detect_from_cwd(r"S:\", r"C:\long\path");
    let outside = r"C:\Windows\System32";
    assert_eq!(ctx.to_logical(outside, resolve_subst), outside);
}

#[test]
fn subst_roundtrip() {
    let ctx = LogicalPathContext::detect_from_cwd(r"S:\", r"C:\long\path");
    let canonical = r"C:\long\path\src";
    let logical = ctx.to_logical(canonical, resolve_subst);
    assert_eq!(logical, r"S:\src");
    assert_eq!(ctx.to_canonical(&logical, resolve_subst), canonical);
}

#[test]
fn junction_roundtrip() {
    let ctx = ctx_with_windows_mapping(r"C:\real", r"C:\link");
    let canonical = r"C:\real\src";
    let logical = ctx.to_logical(canonical, resolve_junction);
    assert_eq!(logical, r"C:\link\src");
    assert_eq!(ctx.to_canonical(&logical, resolve_junction), canonical);
}

#[test]
fn translation_of_a_prefix_itself_is_not_empty() {
    let ctx = ctx_with_mapping("/real", "/link");
    let result = ctx.to_logical("/real", resolve_link("/link", "/real"));
    assert_eq!(result, "/link");
    let ctx = ctx_with_windows_mapping(r"C:\long\path", r"S:\");
    assert_eq!(ctx.to_logical(r"C:\long\path", resolve_subst), r"S:\");
}

#[test]
fn to_logical_matches_drive_letter_in_either_case() {
    let ctx = ctx_with_windows_mapping(r"C:\real", r"C:\link");
    let resolve = |path: &str| {
        let plain = path.strip_prefix(r"\\?\").unwrap_or(path);
        let upper = match plain.get(..1) {
            Some(d) => format!("{}{}", d.to_ascii_uppercase(), &plain[1..]),
            None => plain.to_string(),
        };
        resolve_junction(&upper)
    };
    assert_eq!(ctx.to_logical(r"c:\real\src", resolve), r"C:\link\src");
}

#[test]
fn round_trip_check_ignores_ascii_case_on_windows() {
    // The resolver spells the real directory `Real`; on Windows that is
    // still the same path as `real`.
    let resolve = |path: &str| -> Option<String> {
        if let Some(rest) = path.strip_prefix(r"C:\link") {
            Some(format!(r"C:\Real{}", rest))
        } else if path.starts_with(r"C:\real") {
            Some(path.to_string())
        } else {
            None
        }
    };
    let ctx = ctx_with_windows_mapping(r"C:\real", r"C:\link");
    assert_eq!(ctx.to_logical(r"C:\real\src", resolve), r"C:\link\src");
    let unix_resolve = |path: &str| -> Option<String> {
        if let Some(rest) = path.strip_prefix("/link") {
            Some(format!("/Real{}", rest))
        } else if path.starts_with("/real") {
            Some(path.to_string())
        } else {
            None
        }
    };
    let unix = ctx_with_mapping("/real", "/link");
    assert_eq!(unix.to_logical("/real/src", unix_resolve), "/real/src");
}

#[test]
fn to_logical_matches_extended_length_input_on_windows() {
    let ctx = ctx_with_windows_mapping(r"C:\real", r"C:\link");
    let result = ctx.to_logical(r"\\?\C:\real\src", resolve_junction);
    assert_eq!(result, r"C:\link\src");
}

#[test]
fn to_canonical_through_junction_on_windows() {
    let ctx = ctx_with_windows_mapping(r"C:\real", r"C:\link");
    assert_eq!(ctx.to_canonical(r"C:\link\src", resolve_junction), r"C:\real\src");
    assert_eq!(ctx.to_canonical(r"c:/LINK/src", resolve_junction), r"c:/LINK/src");
}

#[test]
fn windows_mapping_leaves_paths_outside_prefix() {
    let ctx = ctx_with_windows_mapping(r"C:\real", r"C:\link");
    let input = r"C:\Windows\System32";
    assert_eq!(ctx.to_logical(input, resolve_junction), input);
}

#[test]
fn subst_drive_translation_keeps_drive_root() {
    // S: is a subst drive for D:\projects; the mapping is D:\projects to S:\.
    let ctx = ctx_with_windows_mapping(r"D:\projects", r"S:\");
    assert_eq!(
        ctx.translation_target(r"D:\projects\workspace\src", TranslationDirection::ToLogical),
        Some(r"S:\workspace\src".to_string())
    );
    assert_eq!(
        ctx.translation_target(r"S:\workspace", TranslationDirection::ToCanonical),
        Some(r"D:\projects\workspace".to_string())
    );
}

#[test]
fn mapped_drive_translation_keeps_drive_prefix() {
    let ctx = ctx_with_windows_mapping(r"\\server\share\", r"Z:\");
    assert_eq!(
        ctx.translation_target(r"\\server\share\folder\x", TranslationDirection::ToLogical),
        Some(r"Z:\folder\x".to_string())
    );
    assert_eq!(
        ctx.translation_target(r"Z:\folder", TranslationDirection::ToCanonical),
        Some(r"\\server\share\folder".to_string())
    );
}
