use pero_core::paths::fix_path;

#[test]
fn fix_path_strips_one_verbatim_marker() {
    assert_eq!(fix_path(r"\\?\C:\work\core"), r"C:\work\core");
}

#[test]
fn fix_path_strips_repeated_markers() {
    assert_eq!(fix_path(r"\\?\\\?\C:\x"), r"C:\x");
}

#[test]
fn fix_path_keeps_other_paths() {
    assert_eq!(fix_path("/home/user/core"), "/home/user/core");
    assert_eq!(fix_path(r"C:\a\\?\b"), r"C:\a\\?\b");
    assert_eq!(fix_path(""), "");
    assert_eq!(fix_path(r"\\?"), r"\\?");
}
