use pi_natives::env::{
    layer_assignments, merge_path_values, normalize_env_key, normalize_path_segment,
    session_globals, should_skip_env_var, PathStyle,
};

fn pairs(v: &[(&str, &str)]) -> Vec<(String, String)> {
    v.iter().map(|(k, x)| (k.to_string(), x.to_string())).collect()
}

#[test]
fn deny_list() {
    for name in ["HISTFILE", "PS1", "BASH_ENV", "IFS", "PWD", "SHLVL", "HOSTTYPE", "BASH_FUNC_f%%"] {
        assert!(should_skip_env_var(name), "{name}");
    }
    for name in ["PATH", "HOME", "histfile", "BASH_FUNC_f", "MY_PS1"] {
        assert!(!should_skip_env_var(name), "{name}");
    }
}

#[test]
fn denied_call_variable_never_reaches_the_command() {
    let vars = pairs(&[("HISTFILE", "/tmp/h"), ("FOO", "1"), ("PS1", "> "), ("BAR", "2")]);
    let out = layer_assignments(&vars, PathStyle::CaseSensitive);
    assert_eq!(out, pairs(&[("FOO", "1"), ("BAR", "2")]));
}

#[test]
fn path_key_normalization() {
    assert_eq!(normalize_env_key("Path", PathStyle::CaseInsensitive), "PATH");
    assert_eq!(normalize_env_key("Path", PathStyle::CaseSensitive), "Path");
    assert_eq!(normalize_env_key("HOME", PathStyle::CaseInsensitive), "HOME");
}

#[test]
fn path_segment_normalization() {
    let n = |s: &str| normalize_path_segment(&s.chars().collect::<Vec<_>>()).into_iter().collect::<String>();
    assert_eq!(n("  \"C:/Tools/Bin/\" "), "c:\\tools\\bin");
    assert_eq!(n("   "), "");
    assert_eq!(n("\\"), "\\");
    assert_eq!(n("C:\\a\\\\b"), "c:\\a\\b");
    assert_eq!(n("C:/a/./b/"), "c:\\a\\b");
    assert_eq!(n("."), ".");
    assert_eq!(n(".\\.\\"), ".");
    assert_eq!(n("/usr//bin"), "\\usr\\bin");
}

#[test]
fn path_merging() {
    assert_eq!(merge_path_values("a;b", "c", PathStyle::CaseSensitive), "c");
    assert_eq!(
        merge_path_values("C:\\A;c:\\b", "c:\\a\\;D:\\x;;C:\\B", PathStyle::CaseInsensitive),
        "C:\\A;c:\\b;D:\\x"
    );
    assert_eq!(
        merge_path_values("C:\\a\\b", "c:\\A\\\\B;C:\\a\\.\\b;C:\\c", PathStyle::CaseInsensitive),
        "C:\\a\\b;C:\\c"
    );
}

#[test]
fn session_layers_in_order() {
    let inherited = pairs(&[("HOME", "/h"), ("Path", "C:\\a"), ("PS1", "x"), ("PATH", "c:\\A;C:\\b")]);
    let session = Some(pairs(&[("HOME", "/s"), ("HISTFILE", "f")]));
    let out = session_globals(&inherited, &session, PathStyle::CaseInsensitive);
    assert_eq!(out, pairs(&[("HOME", "/h"), ("PATH", "C:\\a;C:\\b"), ("HOME", "/s")]));
    let out = session_globals(&inherited, &None, PathStyle::CaseSensitive);
    assert_eq!(out, pairs(&[("HOME", "/h"), ("Path", "C:\\a"), ("PATH", "c:\\A;C:\\b")]));
}
