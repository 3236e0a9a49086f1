use pi_natives::windows::{
    configure_windows_path, find_git_usr_bin, first_listed_path, git_usr_bin_dir,
    git_usr_bin_with_ls, path_contains_entry,
};

#[test]
fn contains_entry_ignores_case_and_spaces() {
    assert!(path_contains_entry("C:\\a; C:\\Git\\usr\\bin ;D:\\x", "c:\\git\\USR\\bin"));
    assert!(!path_contains_entry("C:\\a;D:\\x", "C:\\Git\\usr\\bin"));
    assert!(!path_contains_entry("", "x"));
}

#[test]
fn appends_missing_entry() {
    assert_eq!(configure_windows_path("C:\\a", "C:\\g"), Some("C:\\a;C:\\g".to_string()));
    assert_eq!(configure_windows_path("C:\\a;", "C:\\g"), Some("C:\\a;C:\\g".to_string()));
    assert_eq!(configure_windows_path("", "C:\\g"), Some("C:\\g".to_string()));
    assert_eq!(configure_windows_path("C:\\G;C:\\a", "c:\\g"), None);
}

#[test]
fn usr_bin_paths() {
    assert_eq!(git_usr_bin_dir("C:\\Git"), "C:\\Git\\usr\\bin");
    assert_eq!(git_usr_bin_dir("C:\\Git\\"), "C:\\Git\\usr\\bin");
    assert_eq!(git_usr_bin_with_ls("C:\\Git", false), None);
    assert_eq!(git_usr_bin_with_ls("C:\\Git", true), Some("C:\\Git\\usr\\bin".to_string()));
}

#[test]
fn first_candidate_with_ls_wins() {
    let c = vec![
        ("C:\\One".to_string(), false),
        ("C:\\Two".to_string(), true),
        ("C:\\Three".to_string(), true),
    ];
    assert_eq!(find_git_usr_bin(&c), Some("C:\\Two\\usr\\bin".to_string()));
    assert_eq!(find_git_usr_bin(&vec![("C:\\One".to_string(), false)]), None);
}

#[test]
fn where_output_first_line() {
    assert_eq!(
        first_listed_path("  C:\\Git\\cmd\\git.exe\r\nC:\\Other\\git.exe\r\n"),
        Some("C:\\Git\\cmd\\git.exe".to_string())
    );
    assert_eq!(first_listed_path(""), None);
    assert_eq!(first_listed_path("   \r\nx"), None);
}
