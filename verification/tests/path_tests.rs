use catalog_core::pathutil::is_abs;
use catalog_core::pathutil::is_booth_login_path;
use catalog_core::pathutil::is_booth_login_url;
use catalog_core::pathutil::is_booth_logged_in_url;
use catalog_core::pathutil::resolve_aviutl_root;
use catalog_core::pathutil::sanitize_filename;

#[test]
fn is_abs_recognises_rooted_and_drive_paths() {
    assert!(is_abs("/usr/local"));
    assert!(is_abs("\\temp"));
    assert!(is_abs("C:\\Program Files"));
    assert!(is_abs("C:/Program Files"));
    assert!(!is_abs("relative/path"));
    assert!(!is_abs("plugins"));
    assert!(!is_abs(""));
}

#[test]
fn sanitize_filename_replaces_reserved_characters() {
    assert_eq!(sanitize_filename("a/b:c"), "a_b_c");
    assert_eq!(sanitize_filename("con?.txt"), "con_.txt");
    assert_eq!(sanitize_filename("x<y>|z\"w"), "x_y__z_w");
    assert_eq!(sanitize_filename("plain.txt"), "plain.txt");
}

#[test]
fn sanitize_filename_falls_back_when_nothing_is_left() {
    assert_eq!(sanitize_filename(""), "download.bin");
    assert_eq!(sanitize_filename("   "), "download.bin");
    assert_eq!(sanitize_filename("  name.bin  "), "name.bin");
}

#[test]
fn booth_login_paths_are_recognised() {
    assert!(is_booth_login_path("/users/sign_in"));
    assert!(is_booth_login_path("/users/sign_in/"));
    assert!(is_booth_login_path("/users/sign_in_by_password"));
    assert!(is_booth_login_path("/users/password/new"));
    assert!(is_booth_login_path("/users/unlock/new"));
    assert!(!is_booth_login_path("/items/12345"));
    assert!(!is_booth_login_path("/"));
}

#[test]
fn booth_urls_need_the_storefront_host() {
    assert!(is_booth_login_url("booth.pm", "/users/sign_in"));
    assert!(is_booth_login_url("accounts.booth.pm", "/users/sign_in"));
    assert!(!is_booth_login_url("example.com", "/users/sign_in"));
    assert!(!is_booth_login_url("booth.pm", "/items/1"));
    assert!(is_booth_logged_in_url("booth.pm", "/items/1"));
    assert!(!is_booth_logged_in_url("booth.pm", "/users/sign_in"));
    assert!(!is_booth_logged_in_url("example.com", "/items/1"));
}

#[test]
fn resolve_aviutl_root_normalises_separators() {
    assert_eq!(resolve_aviutl_root(" C:/AviUtl2 "), "C:\\AviUtl2");
    assert_eq!(resolve_aviutl_root("C:\\AviUtl2"), "C:\\AviUtl2");
    assert_eq!(resolve_aviutl_root("   "), "");
    assert_eq!(resolve_aviutl_root(""), "");
}

#[test]
fn resolve_aviutl2_root_rejects_empty_choices() {
    assert_eq!(
        catalog_core::pathutil::resolve_aviutl2_root(" D:/AviUtl2 "),
        Ok("D:\\AviUtl2".to_string())
    );
    assert!(catalog_core::pathutil::resolve_aviutl2_root("   ").is_err());
}
