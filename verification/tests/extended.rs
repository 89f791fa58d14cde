use logical_path::{strip_extended_length_prefix, strip_extended_prefix};

#[test]
fn strip_prefix_drive_letter() {
    let result = strip_extended_length_prefix(r"\\?\C:\Users\dev");
    assert_eq!(result, r"C:\Users\dev");
}

#[test]
fn strip_prefix_unc() {
    let result = strip_extended_length_prefix(r"\\?\UNC\server\share\folder");
    assert_eq!(result, r"\\server\share\folder");
}

#[test]
fn strip_prefix_no_prefix_unchanged() {
    let result = strip_extended_length_prefix(r"C:\Users\dev");
    assert_eq!(result, r"C:\Users\dev");
}

#[test]
fn strip_prefix_empty_unchanged() {
    let result = strip_extended_length_prefix("");
    assert_eq!(result, "");
}

#[test]
fn strip_prefix_without_drive_letter_unchanged() {
    let result = strip_extended_length_prefix(r"\\?\Volume{1234}\dir");
    assert_eq!(result, r"\\?\Volume{1234}\dir");
    let result = strip_extended_length_prefix(r"\\?\1:\dir");
    assert_eq!(result, r"\\?\1:\dir");
}

#[test]
fn strip_extended_prefix_any_verbatim_path() {
    assert_eq!(strip_extended_prefix(r"\\?\C:\Users\dev"), r"C:\Users\dev");
    assert_eq!(strip_extended_prefix(r"\\?\UNC\server\share"), r"\\server\share");
    assert_eq!(strip_extended_prefix(r"\\?\Volume{1234}\dir"), r"Volume{1234}\dir");
    assert_eq!(strip_extended_prefix(r"C:\plain"), r"C:\plain");
}
