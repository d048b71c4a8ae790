use std::path::Path;
use samply_hotspots::paths::{build_target_lib_flags, image_matches_binary_cached};
use samply_hotspots::profile::Lib;

#[test]
fn image_matches_by_path_file_name_or_canonical_path() {
    assert!(image_matches_binary_cached("/a/b/app", "/a/b/app", None, None));
    assert!(image_matches_binary_cached("/a//b/./app", "/a/b/app", None, None));
    assert!(image_matches_binary_cached("/x/app", "/y/app", None, None));
    assert!(!image_matches_binary_cached("/x/app", "/y/other", None, None));
    assert!(image_matches_binary_cached("/x/app", "/y/other", Some("/real/app"), Some("/real/app")));
    assert!(!image_matches_binary_cached("/x/app", "/y/other", Some("/real/app"), None));
    assert!(!image_matches_binary_cached("/x/app", "/y/other", Some("/real/app"), Some("/real/other")));
    // neither path has a file name
    assert!(image_matches_binary_cached("/", "..", None, None));
}

#[test]
fn target_lib_flags_follow_each_image() {
    let libs = vec![
        Lib { path: Some("/usr/lib/libSystem.dylib".to_string()) },
        Lib { path: None },
        Lib { path: Some("/build/target/app".to_string()) },
        Lib { path: Some("/tmp/link".to_string()) },
    ];
    let canon = vec![None, None, None, Some("/build/target/app".to_string())];
    let flags = build_target_lib_flags(&libs, "./target/app", &canon, Some("/build/target/app"));
    assert_eq!(flags, vec![false, false, true, true]);
}

#[test]
fn path_matching_agrees_with_std_paths() {
    let paths = [
        "/usr/lib/app", "/tmp/app", "/tmp/app/", "/tmp//app", "/tmp/./app", "tmp/app", "./tmp/app",
        "app", "./app", ".", "./", "..", "/x/..", "/", "", "/tmp/app/.", "a/b/../app",
    ];
    for a in paths {
        for b in paths {
            let expected = Path::new(a) == Path::new(b) || Path::new(a).file_name() == Path::new(b).file_name();
            assert_eq!(image_matches_binary_cached(a, b, None, None), expected, "{a} {b}");
        }
    }
    assert!(image_matches_binary_cached("/usr/lib/app", "/tmp/app", None, None));
}
