use jni_loader::locate::{locate_library, search_directories, DirectoryListing, SearchEnvironment};

// A file system in which libc.so.6 sits in a multiarch subdirectory of /lib,
// as on Debian-family systems.
fn listing(dir: &str) -> DirectoryListing {
    let (exists, subdirs_with_entry) = match dir {
        "/lib/" => (true, vec!["/lib/x86_64-linux-gnu".to_string()]),
        "/usr/lib/" => (true, vec!["/usr/lib/x86_64-linux-gnu".to_string()]),
        "/lib64/" => (true, vec![]),
        _ => (false, vec![]),
    };
    DirectoryListing { path: dir.to_string(), exists, has_entry: false, is_dir: exists, subdirs_with_entry }
}

#[test]
fn find_libc() {
    let env = SearchEnvironment { ld_library_path: None, platform: "x86_64".to_string(), pointer_width_64: true };
    let listings: Vec<DirectoryListing> = search_directories(None, None, &env, None).iter().map(|d| listing(d)).collect();
    match locate_library("libc.so.6", &listings) {
        Some(libc_path) => {
            println!("Found libc: {:?}", libc_path);
            assert_eq!(libc_path, "/lib/x86_64-linux-gnu/libc.so.6");
        },
        None => panic!("Failed to find libc.so"),
    };
}
