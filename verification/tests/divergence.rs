use logical_path::{find_divergence_point, paths_equal, PathStyle};

fn pair(canonical: &str, logical: &str) -> Option<(String, String)> {
    Some((canonical.to_string(), logical.to_string()))
}

#[test]
fn divergence_identical_paths_returns_none() {
    let result = find_divergence_point(PathStyle::Unix, "/home/user/project", "/home/user/project");
    assert_eq!(result, None);
}

#[test]
fn divergence_common_suffix_different_prefixes() {
    let result = find_divergence_point(PathStyle::Unix, "/mnt/wsl/workspace/project/src", "/workspace/project/src");
    // "workspace", "project", "src" are the common suffix;
    // prefixes are what remain: /mnt/wsl vs /
    assert_eq!(result, pair("/mnt/wsl", "/"));
}

#[test]
fn divergence_no_common_components_returns_none() {
    let result = find_divergence_point(PathStyle::Unix, "/a/b/c", "/x/y/z");
    assert_eq!(result, None);
}

#[test]
fn divergence_trailing_slashes() {
    let result = find_divergence_point(PathStyle::Unix, "/real/base/project/", "/link/project/");
    assert_eq!(result, pair("/real/base", "/link"));
}

#[test]
fn divergence_dot_components() {
    let result = find_divergence_point(PathStyle::Unix, "/real/./base/project", "/link/./project");
    assert_eq!(result, pair("/real/base", "/link"));
}

#[test]
fn divergence_dotdot_components() {
    // `..` stays a component of its own: the shared suffix is only `project`.
    let result = find_divergence_point(PathStyle::Unix, "/real/base/../base/project", "/link/project");
    assert_eq!(result, pair("/real/base/../base", "/link"));
}

#[test]
fn divergence_redundant_separators() {
    let result = find_divergence_point(PathStyle::Unix, "/real///base//project", "/link//project");
    assert_eq!(result, pair("/real/base", "/link"));
}

#[test]
fn divergence_macos_private_prefix() {
    let result = find_divergence_point(PathStyle::Unix, "/private/var/folders/tmp", "/var/folders/tmp");
    assert_eq!(result, pair("/private", "/"));
}

#[test]
fn divergence_case_insensitive_matching_components() {
    let result = find_divergence_point(PathStyle::Windows, r"C:\Users\Dev\Project", r"C:\users\dev\project");
    assert_eq!(result, None);
}

#[test]
fn divergence_windows_identical_paths() {
    let result = find_divergence_point(PathStyle::Windows, r"C:\Users\dev\project", r"C:\Users\dev\project");
    assert_eq!(result, None);
}

#[test]
fn divergence_of_relative_paths_keeps_relative_prefixes() {
    let result = find_divergence_point(PathStyle::Unix, "a/b", "x/y/b");
    assert_eq!(result, pair("a", "x/y"));
}

#[test]
fn divergence_whole_canonical_is_suffix_gives_empty_prefix() {
    // Every component of the canonical path is shared; its prefix is empty.
    let result = find_divergence_point(PathStyle::Unix, "b/c", "a/b/c");
    assert_eq!(result, pair("", "a"));
}

#[test]
fn divergence_same_path_written_differently_returns_none() {
    let result = find_divergence_point(PathStyle::Unix, "/a//b/./c/", "/a/b/c");
    assert_eq!(result, None);
}

#[test]
fn divergence_prefixes_rebuild_both_paths() {
    let canonical = "/mnt/wsl/workspace/project";
    let logical = "/workspace/project";
    let (cp, lp) = find_divergence_point(PathStyle::Unix, canonical, logical).unwrap();
    assert_eq!(format!("{}/workspace/project", cp), canonical);
    assert_eq!(format!("{}workspace/project", lp), logical);
}

#[test]
fn divergence_windows_junction_like_paths() {
    // Junction-like: D:\Projects\Workspace\src vs C:\workspace\src
    // Common suffix (case-insensitive): workspace\src
    let result = find_divergence_point(
        PathStyle::Windows,
        r"D:\Projects\Workspace\src",
        r"C:\workspace\src",
    );
    assert_eq!(result, pair(r"D:\Projects", r"C:\"));
}

#[test]
fn divergence_windows_mapped_drive() {
    let result = find_divergence_point(PathStyle::Windows, r"\\server\share\folder", r"Z:\folder");
    // The root stays with its prefix on both sides.
    assert_eq!(result, pair(r"\\server\share\", r"Z:\"));
    let (canonical, _) = result.unwrap();
    assert!(paths_equal(PathStyle::Windows, &canonical, r"\\server\share"));
}

#[test]
fn divergence_windows_subst_drive() {
    let result = find_divergence_point(PathStyle::Windows, r"C:\long\path\project", r"S:\project");
    assert_eq!(result, pair(r"C:\long\path", r"S:\"));
}

#[test]
fn divergence_windows_root_is_never_shared() {
    // Two drive roots share no component: the roots stay with their drives.
    assert_eq!(find_divergence_point(PathStyle::Windows, r"C:\", r"S:\"), None);
    assert_eq!(
        find_divergence_point(PathStyle::Windows, r"C:\a", r"\a"),
        pair(r"C:\", r"\")
    );
}

#[test]
fn divergence_windows_prefixes_differing_in_drive_case_are_the_same() {
    let result = find_divergence_point(PathStyle::Windows, r"c:\Users\dev", r"C:\Users\dev");
    assert_eq!(result, None);
}

#[test]
fn divergence_windows_accepts_forward_slashes() {
    let result = find_divergence_point(PathStyle::Windows, "D:/projects/workspace/src", r"S:\workspace\src");
    assert_eq!(result, pair(r"D:\projects", r"S:\"));
}

#[test]
fn divergence_windows_names_differ_beyond_ascii_case() {
    // Only ASCII letters fold: É and é stay different.
    let result = find_divergence_point(PathStyle::Windows, r"C:\a\É", r"D:\é");
    assert_eq!(result, None);
}

#[test]
fn divergence_unix_is_case_sensitive() {
    let result = find_divergence_point(PathStyle::Unix, "/real/Project", "/link/project");
    assert_eq!(result, None);
}
