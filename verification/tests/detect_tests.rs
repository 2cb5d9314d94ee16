use catalog_core::config::AppDirs;
use catalog_core::detect::collect_unique_paths;
use catalog_core::detect::detect_entry;
use catalog_core::detect::determine_versions;
use catalog_core::entry::CatalogEntry;
use catalog_core::entry::FileRecord;
use catalog_core::entry::VersionRecord;

fn dirs() -> AppDirs {
    AppDirs {
        aviutl2_root: "C:\\Root".to_string(),
        aviutl2_data: "C:\\Data".to_string(),
        plugin_dir: "C:\\Plug".to_string(),
        script_dir: "C:\\Scr".to_string(),
        catalog_exe_dir: "C:\\App".to_string(),
        catalog_config_dir: "C:\\Cfg".to_string(),
        log_path: "C:\\Cfg\\logs\\app.log".to_string(),
    }
}

fn version(label: &str, files: Vec<(&str, &str)>) -> VersionRecord {
    VersionRecord {
        version: label.to_string(),
        release_date: String::new(),
        files: files
            .into_iter()
            .map(|(p, h)| FileRecord { path: p.to_string(), hash: h.to_string() })
            .collect(),
    }
}

fn entry(id: &str, versions: Vec<VersionRecord>) -> CatalogEntry {
    CatalogEntry {
        id: id.to_string(),
        name: id.to_string(),
        author: String::new(),
        summary: String::new(),
        item_type: "plugin".to_string(),
        tags: Vec::new(),
        versions,
    }
}

#[test]
fn newest_version_is_checked_first_then_older_ones() {
    // on-disk A hashes to h1: version 2.0 is checked first and fails, then
    // 1.0 matches — the result is "1.0", not the sentinel
    let e = entry(
        "pkg",
        vec![
            version("1.0", vec![("{pluginsDir}/a.aui2", "h1")]),
            version("2.0", vec![("{pluginsDir}/a.aui2", "h2")]),
        ],
    );
    let hashes = vec![("C:\\Plug\\a.aui2".to_string(), "h1".to_string())];
    assert_eq!(detect_entry(&e, &dirs(), &hashes), "1.0");
}

#[test]
fn newest_match_wins_when_both_match() {
    let e = entry(
        "pkg",
        vec![
            version("1.0", vec![("shared.bin", "h")]),
            version("2.0", vec![("shared.bin", "h")]),
        ],
    );
    let hashes = vec![("shared.bin".to_string(), "h".to_string())];
    assert_eq!(detect_entry(&e, &dirs(), &hashes), "2.0");
}

#[test]
fn absent_file_means_not_installed() {
    let e = entry("pkg", vec![version("1.0", vec![("a.bin", "h1")])]);
    let hashes: Vec<(String, String)> = Vec::new();
    assert_eq!(detect_entry(&e, &dirs(), &hashes), "");
}

#[test]
fn present_but_unmatched_file_means_unknown() {
    let e = entry("pkg", vec![version("1.0", vec![("a.bin", "h1")])]);
    let hashes = vec![("a.bin".to_string(), "other".to_string())];
    assert_eq!(detect_entry(&e, &dirs(), &hashes), "???");
}

#[test]
fn any_known_file_anywhere_in_the_entry_means_unknown() {
    // the first declared file is absent, the second is on disk: the version
    // cannot match, but the entry did leave a trace, so it is unidentifiable
    // rather than not installed
    let e = entry("pkg", vec![version("1.0", vec![("a.bin", "h1"), ("b.bin", "h2")])]);
    let hashes = vec![("b.bin".to_string(), "something".to_string())];
    assert_eq!(detect_entry(&e, &dirs(), &hashes), "???");

    // a trace in an older version counts too
    let e = entry(
        "pkg",
        vec![
            version("1.0", vec![("old.bin", "h1")]),
            version("2.0", vec![("new.bin", "h2")]),
        ],
    );
    let hashes = vec![("old.bin".to_string(), "corrupted".to_string())];
    assert_eq!(detect_entry(&e, &dirs(), &hashes), "???");
}

#[test]
fn versions_without_files_are_never_selected() {
    let e = entry("pkg", vec![version("1.0", vec![])]);
    let hashes: Vec<(String, String)> = Vec::new();
    assert_eq!(detect_entry(&e, &dirs(), &hashes), "");

    // an empty newest version is skipped, an older one can still match
    let e = entry(
        "pkg",
        vec![version("1.0", vec![("a.bin", "h")]), version("2.0", vec![])],
    );
    let hashes = vec![("a.bin".to_string(), "h".to_string())];
    assert_eq!(detect_entry(&e, &dirs(), &hashes), "1.0");
}

#[test]
fn every_declared_file_must_match() {
    let e = entry(
        "pkg",
        vec![version("1.0", vec![("a.bin", "ha"), ("b.bin", "hb")])],
    );
    let full = vec![
        ("a.bin".to_string(), "ha".to_string()),
        ("b.bin".to_string(), "hb".to_string()),
    ];
    assert_eq!(detect_entry(&e, &dirs(), &full), "1.0");
    let partial = vec![("a.bin".to_string(), "ha".to_string())];
    assert_eq!(detect_entry(&e, &dirs(), &partial), "???");
}

#[test]
fn an_empty_expected_hash_never_matches() {
    let e = entry("pkg", vec![version("1.0", vec![("a.bin", "")])]);
    let hashes = vec![("a.bin".to_string(), "h".to_string())];
    assert_eq!(detect_entry(&e, &dirs(), &hashes), "???");
}

#[test]
fn determine_versions_maps_ids_and_drops_empty_ones() {
    let list = vec![
        entry("a", vec![version("1.0", vec![("a.bin", "h")])]),
        entry("", vec![version("1.0", vec![("a.bin", "h")])]),
        entry("b", vec![version("1.0", vec![("missing.bin", "h")])]),
    ];
    let hashes = vec![("a.bin".to_string(), "h".to_string())];
    let out = determine_versions(&list, &dirs(), &hashes);
    assert_eq!(
        out,
        vec![("a".to_string(), "1.0".to_string()), ("b".to_string(), "".to_string())]
    );
}

#[test]
fn unique_paths_are_collected_once_in_first_seen_order() {
    let list = vec![
        entry(
            "a",
            vec![
                version("1.0", vec![("{pluginsDir}/x.aui2", "h1"), ("shared/dep.dll", "h2")]),
                version("2.0", vec![("{pluginsDir}/x.aui2", "h3")]),
            ],
        ),
        entry("b", vec![version("1.0", vec![("shared/dep.dll", "h2")])]),
    ];
    let paths = collect_unique_paths(&list, &dirs());
    assert_eq!(
        paths,
        vec!["C:\\Plug\\x.aui2".to_string(), "shared\\dep.dll".to_string()]
    );
}
