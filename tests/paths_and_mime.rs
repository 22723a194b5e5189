use http_mini::mime::{content_type_for, extension_in, get_mime_type};
use http_mini::paths::{
    child_of, climbs_out_of, file_name_of, is_within_root, resolve, target_path, validate_path,
    RejectReason, ResolvedTarget,
};

fn table() -> Vec<(String, String)> {
    vec![
        ("css".to_string(), "text/css".to_string()),
        ("png".to_string(), "image/png".to_string()),
        ("css".to_string(), "text/other".to_string()),
    ]
}

#[test]
fn target_strips_one_slash_only() {
    assert_eq!(target_path("/srv/www", "/index.html"), "/srv/www/index.html");
    assert_eq!(target_path("/srv/www/", "/a/b.txt"), "/srv/www/a/b.txt");
    assert_eq!(target_path("/srv/www", "/"), "/srv/www/");
    assert_eq!(target_path("/srv/www", "//etc/passwd"), "/etc/passwd");
    assert_eq!(target_path("/srv/www", "rel"), "/srv/www/rel");
}

#[test]
fn escaping_paths_are_rejected() {
    let root = "/srv/www";
    for p in ["//etc/passwd", "/../secret", "/a/../../x", "/.."] {
        let t = target_path(root, p);
        for is_dir in [false, true] {
            assert_eq!(
                resolve(root, &t, "server", is_dir, false),
                ResolvedTarget::Rejected(RejectReason::OutsideRoot)
            );
        }
    }
    assert!(!is_within_root("/srv/www", "/srv/wwwx/a"));
    assert!(is_within_root("/srv/www", "/srv/www"));
    assert!(is_within_root("/srv/www", "/srv/www/..x"));
}

#[test]
fn own_executable_is_rejected() {
    let root = "/srv/www";
    let t = target_path(root, "/server");
    assert_eq!(resolve(root, &t, "server", false, false), ResolvedTarget::Rejected(RejectReason::SelfAccess));
    let t = target_path(root, "/sub/server");
    assert_eq!(resolve(root, &t, "server", false, false), ResolvedTarget::Rejected(RejectReason::SelfAccess));
}

#[test]
fn resolution_of_files_and_directories() {
    let root = "/srv/www";
    assert_eq!(resolve(root, "/srv/www/a.txt", "server", false, false), ResolvedTarget::RegularFile);
    assert_eq!(resolve(root, "/srv/www/", "server", true, false), ResolvedTarget::Directory);
    assert_eq!(resolve(root, "/srv/www/link", "server", false, true), ResolvedTarget::Rejected(RejectReason::Symlink));
    assert_eq!(resolve("www", "www/a", "server", false, false), ResolvedTarget::Rejected(RejectReason::Relative));
    assert_eq!(resolve(root, "/srv/www/d/", "server", false, false), ResolvedTarget::Rejected(RejectReason::NoFileName));
}

#[test]
fn path_helpers() {
    assert!(validate_path("/a/b", false));
    assert!(!validate_path("/a/b", true));
    assert!(!validate_path("a/b", false));
    assert_eq!(file_name_of("/a/b.txt"), "b.txt");
    assert_eq!(file_name_of("/a/"), "");
    assert_eq!(file_name_of("plain"), "plain");
    assert_eq!(child_of("/a", "b"), "/a/b");
    assert_eq!(child_of("/a/", "b"), "/a/b");
    assert!(!climbs_out_of("/x/../y"));
    assert!(climbs_out_of(".."));
    assert!(climbs_out_of("/x/../../y"));
    assert!(!climbs_out_of("/x/..y/.z/./.."));
    assert!(climbs_out_of("/./../x"));
}

#[test]
fn mime_lookup() {
    assert_eq!(get_mime_type(&table(), "css"), "text/css");
    assert_eq!(get_mime_type(&table(), "png"), "image/png");
    assert_eq!(get_mime_type(&table(), "html"), "text/plain");
    assert_eq!(get_mime_type(&[], "css"), "text/plain");
}

#[test]
fn extensions_and_content_types() {
    assert_eq!(extension_in("a.tar.gz"), Some("gz"));
    assert_eq!(extension_in(".bashrc"), None);
    assert_eq!(extension_in("noext"), None);
    assert_eq!(extension_in("a."), Some(""));
    assert_eq!(content_type_for(&table(), "style.css"), "text/css");
    assert_eq!(content_type_for(&table(), "README"), "text/plain");
    assert_eq!(content_type_for(&table(), ".css"), "text/plain");
}

#[test]
fn parent_steps_inside_root_are_served() {
    let root = "/r";
    let t = target_path(root, "/a/../b.txt");
    assert_eq!(t, "/r/a/../b.txt");
    assert_eq!(resolve(root, &t, "server", false, false), ResolvedTarget::RegularFile);
    assert_eq!(resolve(root, "/r/a/..", "server", true, false), ResolvedTarget::Directory);
    assert!(is_within_root("/r", "/r/a/b/../../c"));
    assert!(!is_within_root("/r", "/r/a/../../c"));
    assert!(is_within_root("/", "/x/.."));
    assert!(!is_within_root("/", "/.."));
}
