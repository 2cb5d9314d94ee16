use catalog_core::catalog::CatalogIndex;
use catalog_core::entry::CatalogEntry;
use catalog_core::entry::FileRecord;
use catalog_core::entry::VersionRecord;

fn entry(id: &str, name: &str, author: &str, summary: &str, item_type: &str, tags: Vec<&str>, release_date: &str) -> CatalogEntry {
    let versions = if release_date.is_empty() {
        Vec::new()
    } else {
        vec![VersionRecord {
            version: "1.0".to_string(),
            release_date: release_date.to_string(),
            files: vec![FileRecord { path: "x".to_string(), hash: "h".to_string() }],
        }]
    };
    CatalogEntry {
        id: id.to_string(),
        name: name.to_string(),
        author: author.to_string(),
        summary: summary.to_string(),
        item_type: item_type.to_string(),
        tags: tags.into_iter().map(|t| t.to_string()).collect(),
        versions,
    }
}

fn strings(v: Vec<&str>) -> Vec<String> {
    v.into_iter().map(|s| s.to_string()).collect()
}

#[test]
fn set_catalog_index_counts_and_drops_empty_ids() {
    let mut idx = CatalogIndex::new();
    let n = idx.set_catalog_index(&vec![
        entry("a", "Alpha", "", "", "plugin", vec![], ""),
        entry("", "NoId", "", "", "plugin", vec![], ""),
        entry("b", "Beta", "", "", "script", vec![], ""),
    ]);
    assert_eq!(n, 2);
    assert_eq!(idx.len(), 2);
    let all = idx.query_catalog_index(None, None, None, None, None);
    assert_eq!(all.len(), 2);
}

#[test]
fn text_terms_are_anded_across_fields() {
    let mut idx = CatalogIndex::new();
    idx.set_catalog_index(&vec![
        entry("both", "foo tool", "", "a bar helper", "plugin", vec![], ""),
        entry("only-foo", "foo tool", "", "plain", "plugin", vec![], ""),
        entry("only-bar", "other", "", "bar", "plugin", vec![], ""),
    ]);
    let r = idx.query_catalog_index(Some("foo bar".to_string()), None, None, None, None);
    assert_eq!(r, strings(vec!["both"]));
    let r = idx.query_catalog_index(Some("foo".to_string()), None, None, Some("name".to_string()), None);
    assert_eq!(r, strings(vec!["both", "only-foo"]));
}

#[test]
fn text_matching_is_width_and_case_insensitive() {
    let mut idx = CatalogIndex::new();
    idx.set_catalog_index(&vec![entry("a", "\u{FF26}oo Tool", "", "", "plugin", vec![], "")]);
    let r = idx.query_catalog_index(Some("FOO".to_string()), None, None, None, None);
    assert_eq!(r, strings(vec!["a"]));
}

#[test]
fn tag_filter_passes_on_any_shared_tag() {
    let mut idx = CatalogIndex::new();
    idx.set_catalog_index(&vec![
        entry("only-x", "A", "", "", "plugin", vec!["x"], ""),
        entry("none", "B", "", "", "plugin", vec!["z"], ""),
    ]);
    let r = idx.query_catalog_index(None, Some(strings(vec!["x", "y"])), None, None, None);
    assert_eq!(r, strings(vec!["only-x"]));
}

#[test]
fn type_filter_is_a_membership_test() {
    let mut idx = CatalogIndex::new();
    idx.set_catalog_index(&vec![
        entry("p", "A", "", "", "plugin", vec![], ""),
        entry("s", "B", "", "", "script", vec![], ""),
        entry("t", "C", "", "", "theme", vec![], ""),
    ]);
    let r = idx.query_catalog_index(None, None, Some(strings(vec!["plugin", "script"])), Some("name".to_string()), None);
    assert_eq!(r, strings(vec!["p", "s"]));
}

#[test]
fn filters_are_anded_together() {
    let mut idx = CatalogIndex::new();
    idx.set_catalog_index(&vec![
        entry("hit", "foo", "", "", "plugin", vec!["x"], ""),
        entry("wrong-type", "foo", "", "", "script", vec!["x"], ""),
        entry("wrong-tag", "foo", "", "", "plugin", vec!["z"], ""),
        entry("wrong-text", "bar", "", "", "plugin", vec!["x"], ""),
    ]);
    let r = idx.query_catalog_index(
        Some("foo".to_string()),
        Some(strings(vec!["x"])),
        Some(strings(vec!["plugin"])),
        None,
        None,
    );
    assert_eq!(r, strings(vec!["hit"]));
}

#[test]
fn newest_sort_is_descending_by_default_and_name_ascending() {
    let mut idx = CatalogIndex::new();
    idx.set_catalog_index(&vec![
        entry("a", "Foo Bar", "", "", "plugin", vec![], "2024-01-01"),
        entry("b", "Baz", "", "", "plugin", vec![], "2024-06-01"),
    ]);
    assert_eq!(idx.query_catalog_index(None, None, None, Some("newest".to_string()), None), strings(vec!["b", "a"]));
    assert_eq!(idx.query_catalog_index(None, None, None, None, None), strings(vec!["b", "a"]));
    // the normalised name key "baz" precedes "foo bar" lexicographically
    assert_eq!(idx.query_catalog_index(None, None, None, Some("name".to_string()), None), strings(vec!["b", "a"]));
    assert_eq!(
        idx.query_catalog_index(None, None, None, Some("name".to_string()), Some("desc".to_string())),
        strings(vec!["a", "b"])
    );
    assert_eq!(
        idx.query_catalog_index(None, None, None, Some("newest".to_string()), Some("asc".to_string())),
        strings(vec!["a", "b"])
    );
}

#[test]
fn entries_without_a_timestamp_sort_as_greater() {
    let mut idx = CatalogIndex::new();
    idx.set_catalog_index(&vec![
        entry("dated-old", "A", "", "", "plugin", vec![], "2024-01-01"),
        entry("undated", "B", "", "", "plugin", vec![], ""),
        entry("dated-new", "C", "", "", "plugin", vec![], "2024-06-01"),
    ]);
    // descending (the default): the undated entry counts as greatest
    assert_eq!(
        idx.query_catalog_index(None, None, None, None, None),
        strings(vec!["undated", "dated-new", "dated-old"])
    );
    // ascending: it comes last
    assert_eq!(
        idx.query_catalog_index(None, None, None, None, Some("asc".to_string())),
        strings(vec!["dated-old", "dated-new", "undated"])
    );
}

#[test]
fn undated_ties_fall_back_to_the_name_key() {
    let mut idx = CatalogIndex::new();
    idx.set_catalog_index(&vec![
        entry("z-first", "zeta", "", "", "plugin", vec![], ""),
        entry("a-second", "alpha", "", "", "plugin", vec![], ""),
    ]);
    assert_eq!(
        idx.query_catalog_index(None, None, None, None, Some("asc".to_string())),
        strings(vec!["a-second", "z-first"])
    );
}

#[test]
fn equal_keys_keep_snapshot_order() {
    let mut idx = CatalogIndex::new();
    idx.set_catalog_index(&vec![
        entry("first", "Same Name", "", "", "plugin", vec![], "2024-03-03"),
        entry("second", "Same Name", "", "", "plugin", vec![], "2024-03-03"),
        entry("third", "Same Name", "", "", "plugin", vec![], "2024-03-03"),
    ]);
    let expected = strings(vec!["first", "second", "third"]);
    assert_eq!(idx.query_catalog_index(None, None, None, None, None), expected);
    assert_eq!(idx.query_catalog_index(None, None, None, None, Some("asc".to_string())), expected);
    assert_eq!(idx.query_catalog_index(None, None, None, Some("name".to_string()), None), expected);
    assert_eq!(
        idx.query_catalog_index(None, None, None, Some("name".to_string()), Some("desc".to_string())),
        expected
    );
}

#[test]
fn end_to_end_index_and_query() {
    let mut idx = CatalogIndex::new();
    let n = idx.set_catalog_index(&vec![
        entry("a", "Foo Bar", "ann", "summary one", "plugin", vec!["fx"], "2024-01-01"),
        entry("b", "Baz", "bob", "summary two", "plugin", vec!["ui"], "2024-06-01"),
    ]);
    assert_eq!(n, 2);
    assert_eq!(idx.query_catalog_index(None, None, None, Some("newest".to_string()), None), strings(vec!["b", "a"]));
    assert_eq!(idx.query_catalog_index(None, None, None, Some("name".to_string()), None), strings(vec!["b", "a"]));
    assert_eq!(idx.query_catalog_index(Some("baz".to_string()), None, None, None, None), strings(vec!["b"]));
    assert_eq!(idx.query_catalog_index(Some("nothing".to_string()), None, None, None, None), strings(vec![]));
}
