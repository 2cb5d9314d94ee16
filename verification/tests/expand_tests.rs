use catalog_core::config::AppConfig;
use catalog_core::config::AppDirs;
use catalog_core::config::Settings;
use catalog_core::config::build_app_dirs;
use catalog_core::config::dirs;
use catalog_core::config::join_path;
use catalog_core::expand::expand_macros;
use catalog_core::expand::expand_path_key;
use catalog_core::expand::expand_with_dirs;

fn test_dirs() -> AppDirs {
    AppDirs {
        aviutl2_root: "C:\\AviUtl2".to_string(),
        aviutl2_data: "C:\\ProgramData\\aviutl2".to_string(),
        plugin_dir: "C:\\ProgramData\\aviutl2\\Plugin".to_string(),
        script_dir: "C:\\ProgramData\\aviutl2\\Script".to_string(),
        catalog_exe_dir: "C:\\App".to_string(),
        catalog_config_dir: "C:\\Config".to_string(),
        log_path: "C:\\Config\\logs\\app.log".to_string(),
    }
}

#[test]
fn expand_substitutes_each_placeholder() {
    let d = test_dirs();
    assert_eq!(expand_with_dirs("{appDir}/aviutl2.exe", &d), "C:\\AviUtl2/aviutl2.exe");
    assert_eq!(expand_with_dirs("{pluginsDir}/x.aui2", &d), "C:\\ProgramData\\aviutl2\\Plugin/x.aui2");
    assert_eq!(expand_with_dirs("{scriptsDir}/s.anm", &d), "C:\\ProgramData\\aviutl2\\Script/s.anm");
    assert_eq!(expand_with_dirs("{dataDir}/d.bin", &d), "C:\\ProgramData\\aviutl2/d.bin");
}

#[test]
fn expand_leaves_unknown_placeholders_verbatim() {
    let d = test_dirs();
    assert_eq!(expand_with_dirs("{fooDir}/x", &d), "{fooDir}/x");
    assert_eq!(expand_with_dirs("no placeholders", &d), "no placeholders");
}

#[test]
fn expand_fails_closed_without_configuration() {
    let cfg = AppConfig::new();
    assert_eq!(expand_macros(&cfg, "{appDir}/aviutl2.exe"), "{appDir}/aviutl2.exe");
    let mut cfg = AppConfig::new();
    cfg.set_appdirs(test_dirs());
    assert_eq!(expand_macros(&cfg, "{appDir}/aviutl2.exe"), "C:\\AviUtl2/aviutl2.exe");
    assert_eq!(dirs(&cfg).aviutl2_root, "C:\\AviUtl2");
}

#[test]
fn path_keys_use_backslashes() {
    let d = test_dirs();
    assert_eq!(expand_path_key("{appDir}/aviutl2.exe", &d), "C:\\AviUtl2\\aviutl2.exe");
    assert_eq!(expand_path_key("a/b/c", &d), "a\\b\\c");
}

#[test]
fn join_path_inserts_one_separator() {
    assert_eq!(join_path("C:\\base", "child"), "C:\\base\\child");
    assert_eq!(join_path("C:\\base\\", "child"), "C:\\base\\child");
    assert_eq!(join_path("C:/base/", "child"), "C:/base/child");
    assert_eq!(join_path("", "child"), "child");
}

#[test]
fn build_app_dirs_standard_mode_uses_program_data() {
    let mut s = Settings::default();
    s.aviutl2_root = "C:\\AviUtl2".to_string();
    let d = build_app_dirs(&s, "C:\\ProgramData", "C:\\App", "C:\\Config");
    assert_eq!(d.aviutl2_root, "C:\\AviUtl2");
    assert_eq!(d.aviutl2_data, "C:\\ProgramData\\aviutl2");
    assert_eq!(d.plugin_dir, "C:\\ProgramData\\aviutl2\\Plugin");
    assert_eq!(d.script_dir, "C:\\ProgramData\\aviutl2\\Script");
    assert_eq!(d.catalog_exe_dir, "C:\\App");
    assert_eq!(d.catalog_config_dir, "C:\\Config");
    assert_eq!(d.log_path, "C:\\Config\\logs\\app.log");
}

#[test]
fn build_app_dirs_portable_mode_nests_data_under_root() {
    let mut s = Settings::default();
    s.aviutl2_root = "D:\\Portable".to_string();
    s.is_portable_mode = true;
    let d = build_app_dirs(&s, "C:\\ProgramData", "C:\\App", "C:\\Config");
    assert_eq!(d.aviutl2_data, "D:\\Portable\\data");
    assert_eq!(d.plugin_dir, "D:\\Portable\\data\\Plugin");
    assert_eq!(d.script_dir, "D:\\Portable\\data\\Script");
}

#[test]
fn get_app_dirs_lists_every_directory() {
    let d = test_dirs();
    let pairs = catalog_core::config::get_app_dirs(&d);
    assert_eq!(pairs.len(), 7);
    assert_eq!(pairs[0], ("aviutl2_root".to_string(), "C:\\AviUtl2".to_string()));
    assert_eq!(pairs[6], ("log_path".to_string(), "C:\\Config\\logs\\app.log".to_string()));
}
