use logical_path::{
    components_equal, is_relative, path_components, paths_equal, render_components, PathStyle,
};

const U: PathStyle = PathStyle::Unix;
const W: PathStyle = PathStyle::Windows;

fn strings(parts: &[&str]) -> Vec<String> {
    parts.iter().map(|p| p.to_string()).collect()
}

#[test]
fn components_of_absolute_path() {
    assert_eq!(path_components(U, "/a/b/c"), strings(&["/", "a", "b", "c"]));
}

#[test]
fn components_skip_empty_and_dot_segments() {
    assert_eq!(path_components(U, "/a//./b/"), strings(&["/", "a", "b"]));
}

#[test]
fn components_keep_leading_dot_and_dotdot() {
    assert_eq!(path_components(U, "./a/../b"), strings(&[".", "a", "..", "b"]));
    assert_eq!(path_components(U, "."), strings(&["."]));
    assert_eq!(path_components(U, ".git/x"), strings(&[".git", "x"]));
}

#[test]
fn components_of_empty_and_root() {
    assert_eq!(path_components(U, ""), Vec::<String>::new());
    assert_eq!(path_components(U, "/"), strings(&["/"]));
    assert_eq!(path_components(U, "//"), strings(&["/"]));
}

#[test]
fn paths_equal_compares_components() {
    assert!(paths_equal(U, "/a//b/", "/a/./b"));
    assert!(!paths_equal(U, "/a/b", "a/b"));
    assert!(!paths_equal(U, "/a/b", "/a/B"));
}

#[test]
fn components_equal_unix_is_case_sensitive() {
    assert!(components_equal(U, &"src".to_string(), &"src".to_string()));
    assert!(!components_equal(U, &"Src".to_string(), &"src".to_string()));
}

#[test]
fn relative_paths_have_no_root() {
    assert!(is_relative(U, "src/main.rs"));
    assert!(is_relative(U, "../foo/bar.rs"));
    assert!(is_relative(U, ""));
    assert!(!is_relative(U, "/src"));
}

#[test]
fn rendered_components_read_back_the_same() {
    for path in ["/a//b/./c/", "./x/../y", "/", "", "rel/dir/", ".hidden/x"] {
        let comps = path_components(U, path);
        let written = render_components(U, &comps, comps.len());
        assert_eq!(path_components(U, &written), comps, "for {}", path);
    }
    let comps = path_components(U, "/mnt/wsl/workspace/project");
    assert_eq!(render_components(U, &comps, 3), "/mnt/wsl");
    assert_eq!(render_components(U, &comps, 1), "/");
    assert_eq!(render_components(U, &comps, 0), "");
    let rel = path_components(U, "./a/b");
    assert_eq!(render_components(U, &rel, 3), "./a/b");
}

fn s(x: &str) -> String {
    x.to_string()
}

#[test]
fn components_equal_windows_ignores_ascii_case() {
    assert!(components_equal(W, &s("Workspace"), &s("workspace")));
    assert!(components_equal(W, &s("C:"), &s("c:")));
    assert!(!components_equal(W, &s("É"), &s("é")));
    assert!(!components_equal(W, &s("src"), &s("srcs")));
}

#[test]
fn windows_components_of_drive_paths() {
    assert_eq!(path_components(W, r"C:\Users\dev"), strings(&["C:", "\\", "Users", "dev"]));
    assert_eq!(path_components(W, "C:/Users//dev/"), strings(&["C:", "\\", "Users", "dev"]));
    assert_eq!(path_components(W, "C:foo"), strings(&["C:", "foo"]));
    assert_eq!(path_components(W, r"C:\"), strings(&["C:", "\\"]));
}

#[test]
fn windows_components_of_unc_paths() {
    assert_eq!(
        path_components(W, r"\\server\share\folder"),
        strings(&[r"\\server\share", "\\", "folder"])
    );
    // A share alone still has its root, as `Path::components` gives it.
    assert_eq!(path_components(W, "//server/share"), strings(&["//server/share", "\\"]));
    assert!(paths_equal(W, r"\\server\share", r"\\server\share\"));
    assert_eq!(path_components(W, r"\\?\C:"), strings(&[r"\\?\C:"]));
    // Without a share name there is no prefix.
    assert_eq!(path_components(W, r"\\server"), strings(&["\\", "server"]));
}

#[test]
fn windows_components_of_relative_paths() {
    assert_eq!(path_components(W, r"src\main.rs"), strings(&["src", "main.rs"]));
    assert_eq!(path_components(W, r".\a\..\b"), strings(&[".", "a", "..", "b"]));
    assert_eq!(path_components(W, r"\windows"), strings(&["\\", "windows"]));
}

#[test]
fn windows_absolute_paths_need_prefix_and_root() {
    assert!(!is_relative(W, r"C:\x"));
    assert!(!is_relative(W, r"\\server\share"));
    assert!(is_relative(W, r"C:x"));
    assert!(is_relative(W, r"\x"));
    assert!(is_relative(W, r"src\main.rs"));
    assert!(is_relative(U, r"C:\x"));
}

#[test]
fn windows_rendering_of_prefixes() {
    let comps = path_components(W, r"D:\Projects\Workspace\src");
    assert_eq!(render_components(W, &comps, 1), "D:");
    assert_eq!(render_components(W, &comps, 2), r"D:\");
    assert_eq!(render_components(W, &comps, 3), r"D:\Projects");
    assert_eq!(render_components(W, &comps, 5), r"D:\Projects\Workspace\src");
    let unc = path_components(W, "//server/share/a/b");
    assert_eq!(render_components(W, &unc, 4), r"//server/share\a\b");
    let rel = path_components(W, "C:foo/bar");
    assert_eq!(render_components(W, &rel, 3), r"C:foo\bar");
}

#[test]
fn windows_paths_equal_compares_components() {
    assert!(paths_equal(W, r"C:\a\b", "C:/a//b/"));
    assert!(!paths_equal(W, r"C:\a", r"C:\A"));
}
