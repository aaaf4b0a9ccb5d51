use cbr_reader::paths::is_cbr_file_name;
use cbr_reader::scan::{find_cbr_files, ScanEntry};

fn path(parts: &[&str]) -> Vec<String> {
    parts.iter().map(|p| p.to_string()).collect()
}

fn file(parts: &[&str]) -> ScanEntry {
    ScanEntry { path: path(parts), is_file: true }
}

fn dir(parts: &[&str]) -> ScanEntry {
    ScanEntry { path: path(parts), is_file: false }
}

#[test]
fn extension_matches_case_insensitively() {
    assert!(is_cbr_file_name("Foo.CBR"));
    assert!(is_cbr_file_name("foo.Cbr"));
    assert!(is_cbr_file_name("foo.cbr"));
    assert!(!is_cbr_file_name("foo.cbz"));
}

#[test]
fn names_without_extension_do_not_match() {
    assert!(!is_cbr_file_name("foo"));
    assert!(!is_cbr_file_name(""));
    assert!(!is_cbr_file_name(".cbr"));
    assert!(!is_cbr_file_name("foo."));
    assert!(is_cbr_file_name("archive.tar.cbr"));
    assert!(!is_cbr_file_name("foo.cbr.txt"));
    assert!(is_cbr_file_name("..cbr"));
}

#[test]
fn end_to_end_scenario() {
    let root = path(&["/", "tmp", "Comics"]);
    let entries = vec![
        dir(&["/", "tmp", "Comics"]),
        dir(&["/", "tmp", "Comics", "SeriesA"]),
        file(&["/", "tmp", "Comics", "SeriesA", "issue1.cbr"]),
        file(&["/", "tmp", "Comics", "SeriesA", "issue2.cbr"]),
        dir(&["/", "tmp", "Comics", "SeriesB"]),
        file(&["/", "tmp", "Comics", "SeriesB", "issue1.CBR"]),
        file(&["/", "tmp", "Comics", "notes.txt"]),
    ];
    let r = find_cbr_files(&root, &entries);
    assert_eq!(r.files.len(), 3);
    assert_eq!(r.files[0], path(&["/", "tmp", "Comics", "SeriesA", "issue1.cbr"]));
    assert_eq!(r.files[1], path(&["/", "tmp", "Comics", "SeriesA", "issue2.cbr"]));
    assert_eq!(r.files[2], path(&["/", "tmp", "Comics", "SeriesB", "issue1.CBR"]));
    assert_eq!(r.groups.len(), 2);
    assert_eq!(r.groups[0].name, "SeriesA");
    assert_eq!(r.groups[0].dir, path(&["/", "tmp", "Comics", "SeriesA"]));
    assert_eq!(r.groups[1].name, "SeriesB");
    assert_eq!(r.groups[1].dir, path(&["/", "tmp", "Comics", "SeriesB"]));
}

#[test]
fn empty_walk_yields_empty_results() {
    let root = path(&["/", "tmp", "missing"]);
    let entries: Vec<ScanEntry> = Vec::new();
    let r = find_cbr_files(&root, &entries);
    assert!(r.files.is_empty());
    assert!(r.groups.is_empty());
}

#[test]
fn no_matching_files_yields_empty_results() {
    let root = path(&["/", "tmp", "Comics"]);
    let entries = vec![
        dir(&["/", "tmp", "Comics"]),
        dir(&["/", "tmp", "Comics", "SeriesA"]),
        file(&["/", "tmp", "Comics", "SeriesA", "notes.txt"]),
        file(&["/", "tmp", "Comics", "cover.jpg"]),
    ];
    let r = find_cbr_files(&root, &entries);
    assert!(r.files.is_empty());
    assert!(r.groups.is_empty());
}

#[test]
fn grouping_is_first_wins() {
    let root = path(&["/", "c"]);
    let entries = vec![
        file(&["/", "c", "S", "a.cbr"]),
        file(&["/", "c", "S", "b.cbr"]),
        file(&["/", "c", "S", "deeper", "c.cbr"]),
    ];
    let r = find_cbr_files(&root, &entries);
    assert_eq!(r.files.len(), 3);
    assert_eq!(r.groups.len(), 1);
    assert_eq!(r.groups[0].name, "S");
    assert_eq!(r.groups[0].dir, path(&["/", "c", "S"]));
}

#[test]
fn file_directly_under_root_groups_by_its_own_name() {
    let root = path(&["/", "c"]);
    let entries = vec![file(&["/", "c", "solo.cbr"])];
    let r = find_cbr_files(&root, &entries);
    assert_eq!(r.files.len(), 1);
    assert_eq!(r.groups.len(), 1);
    assert_eq!(r.groups[0].name, "solo.cbr");
    assert_eq!(r.groups[0].dir, path(&["/", "c", "solo.cbr"]));
}

#[test]
fn root_that_is_itself_a_file_is_listed_without_a_group() {
    let root = path(&["/", "c", "solo.cbr"]);
    let entries = vec![file(&["/", "c", "solo.cbr"])];
    let r = find_cbr_files(&root, &entries);
    assert_eq!(r.files.len(), 1);
    assert_eq!(r.files[0], root);
    assert!(r.groups.is_empty());
}

#[test]
fn entries_outside_the_root_are_skipped() {
    let root = path(&["/", "c"]);
    let entries = vec![
        file(&["/", "other", "a.cbr"]),
        file(&["/", "c", "b.cbr"]),
    ];
    let r = find_cbr_files(&root, &entries);
    assert_eq!(r.files.len(), 1);
    assert_eq!(r.files[0], path(&["/", "c", "b.cbr"]));
}

#[test]
fn directories_named_like_archives_are_not_listed() {
    let root = path(&["/", "c"]);
    let entries = vec![
        dir(&["/", "c", "fake.cbr"]),
        file(&["/", "c", "real.cbr"]),
    ];
    let r = find_cbr_files(&root, &entries);
    assert_eq!(r.files.len(), 1);
    assert_eq!(r.files[0], path(&["/", "c", "real.cbr"]));
}
