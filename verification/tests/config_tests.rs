use cbr_reader::config::{listing_has_config, load_config, parse_config};
use cbr_reader::present::row_labels;

#[test]
fn config_file_with_string_field_is_used() {
    let c = load_config(Some("{\"comics_folder_path\": \"/tmp/x\"}"));
    assert_eq!(c.comics_folder_path, "/tmp/x");
}

#[test]
fn missing_file_gives_the_default() {
    let c = load_config(None);
    assert_eq!(c.comics_folder_path, "Comics");
}

#[test]
fn non_string_field_gives_the_default() {
    let c = load_config(Some("{\"comics_folder_path\": 5}"));
    assert_eq!(c.comics_folder_path, "Comics");
}

#[test]
fn invalid_syntax_gives_the_default() {
    let c = load_config(Some("{\"comics_folder_path\": "));
    assert_eq!(c.comics_folder_path, "Comics");
}

#[test]
fn missing_field_gives_the_default() {
    let c = load_config(Some("{\"another_field\": \"/tmp/x\"}"));
    assert_eq!(c.comics_folder_path, "Comics");
}

#[test]
fn parse_config_keeps_the_exact_path() {
    let parsed = parse_config("{\"comics_folder_path\": \"/a/b c/d\"}");
    assert!(parsed.is_some());
    let Some(c) = parsed else { panic!() };
    assert_eq!(c.comics_folder_path, "/a/b c/d");
    assert!(parse_config("not json").is_none());
}

#[test]
fn listing_detects_the_config_file() {
    let names: Vec<String> = vec!["a.txt".to_string(), "cbr-config.json".to_string()];
    assert!(listing_has_config(&names));
    let names2: Vec<String> = vec!["a.txt".to_string(), "cbr-config".to_string()];
    assert!(!listing_has_config(&names2));
}

#[test]
fn one_row_per_path() {
    let paths: Vec<String> = vec!["/c/a.cbr".to_string(), "/c/b.cbr".to_string()];
    let rows = row_labels(&paths);
    assert_eq!(rows, paths);
}

#[test]
fn placeholder_row_when_nothing_was_found() {
    let paths: Vec<String> = Vec::new();
    let rows = row_labels(&paths);
    assert_eq!(rows.len(), 1);
    assert_eq!(rows[0], "No CBR Files found");
}
