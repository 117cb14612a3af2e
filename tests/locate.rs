use jni_loader::locate::{
    check_directory, join_path, replace, replace_tokens, search_directories, split_paths, DirectoryListing,
    SearchEnvironment,
};

#[test]
fn split_on_colon_then_semicolon() {
    assert_eq!(split_paths("/a:/b;c:"), vec!["/a", "/b;c", ""]);
    assert_eq!(split_paths("/a;/b"), vec!["/a", "/b"]);
    assert_eq!(split_paths("/only"), vec!["/only"]);
    assert_eq!(split_paths(""), vec![""]);
}

#[test]
fn replace_leftmost_without_overlap() {
    assert_eq!(replace("aaa", "aa", "b"), "ba");
    assert_eq!(replace("x$LIBy$LIB", "$LIB", "lib64"), "xlib64ylib64");
    assert_eq!(replace("none", "$LIB", "lib64"), "none");
}

#[test]
fn tokens_substituted() {
    assert_eq!(
        replace_tokens("$ORIGIN/${LIB}:${ORIGIN}/$PLATFORM", Some("/opt/app"), true, "x86_64"),
        "/opt/app/lib64:/opt/app/x86_64"
    );
    assert_eq!(replace_tokens("$ORIGIN/$LIB", None, false, "i686"), "$ORIGIN/lib");
}

#[test]
fn search_order() {
    let env = SearchEnvironment {
        ld_library_path: Some("$ORIGIN/deps:/ld".to_string()),
        platform: "x86_64".to_string(),
        pointer_width_64: true,
    };
    let dirs = search_directories(
        Some(vec!["/extra".to_string()]),
        Some("/parent".to_string()),
        &env,
        Some("/runpath".to_string()),
    );
    assert_eq!(
        dirs,
        vec!["/extra", "/parent", "/parent/deps", "/ld", "/runpath", "/lib64/", "/usr/lib64/", "/lib/", "/usr/lib/"]
    );
    let env32 = SearchEnvironment { ld_library_path: None, platform: "i686".to_string(), pointer_width_64: false };
    assert_eq!(search_directories(None, None, &env32, None), vec!["/lib32/", "/usr/lib32/", "/lib/", "/usr/lib/"]);
}

#[test]
fn join_adds_one_separator() {
    assert_eq!(join_path("/lib/", "libc.so.6"), "/lib/libc.so.6");
    assert_eq!(join_path("/lib", "libc.so.6"), "/lib/libc.so.6");
    assert_eq!(join_path("", "libc.so.6"), "libc.so.6");
}

#[test]
fn direct_match_preferred() {
    let d = DirectoryListing {
        path: "/opt".to_string(),
        exists: true,
        has_entry: true,
        is_dir: true,
        subdirs_with_entry: vec!["/opt/sub".to_string()],
    };
    assert_eq!(check_directory("libx.so", &d), Some("/opt/libx.so".to_string()));
    let d2 = DirectoryListing { has_entry: false, ..d.clone() };
    assert_eq!(check_directory("libx.so", &d2), Some("/opt/sub/libx.so".to_string()));
    let d3 = DirectoryListing { exists: false, ..d.clone() };
    assert_eq!(check_directory("libx.so", &d3), None);
}
