use internetarchive_core::item::{select_matched_files, ArchiveFile, ArchiveItem};

fn item_with_files() -> ArchiveItem {
    let mut item = ArchiveItem::new("x");
    let mut jpg = ArchiveFile::new("x", "a.jpg");
    jpg.format = Some("JPEG".to_string());
    item.files = vec![jpg, ArchiveFile::new("x", "b.xml"), ArchiveFile::new("x", "c.txt")];
    item
}

fn names(files: &[ArchiveFile]) -> Vec<String> {
    files.iter().map(|f| f.name.clone()).collect()
}

fn strings(v: &[&str]) -> Vec<String> {
    v.iter().map(|s| s.to_string()).collect()
}

#[test]
fn without_filters_every_file_is_selected() {
    let item = item_with_files();
    let all = item.matching_files(&[], &[], &[], &strings(&["*"]), false);
    assert_eq!(names(&all), vec!["a.jpg", "b.xml", "c.txt"]);
    assert_eq!(all, item.files);
}

#[test]
fn on_the_fly_files_are_added() {
    let item = item_with_files();
    let all = item.matching_files(&[], &[], &[], &[], true);
    assert_eq!(
        names(&all),
        vec!["a.jpg", "b.xml", "c.txt", "x.epub", "x.mobi", "x_daisy.zip", "x_archive_marc.xml"]
    );
    assert_eq!(all[3].identifier, "x");
    assert_eq!(all[3].format, None);
}

#[test]
fn selects_by_name_format_and_glob() {
    let item = item_with_files();
    assert_eq!(
        names(&item.matching_files(&strings(&["c.txt"]), &[], &[], &[], false)),
        vec!["c.txt"]
    );
    assert_eq!(
        names(&item.matching_files(&[], &strings(&["JPEG"]), &[], &[], false)),
        vec!["a.jpg"]
    );
    assert_eq!(
        names(&item.matching_files(&[], &[], &strings(&["*.jpg|*.xml"]), &[], false)),
        vec!["a.jpg", "b.xml"]
    );
}

#[test]
fn exclusions_apply_to_glob_matches_only() {
    let item = item_with_files();
    let picked = item.matching_files(
        &strings(&["b.xml"]),
        &[],
        &strings(&["*.xml", "*.txt"]),
        &strings(&["b*|c*"]),
        false,
    );
    // `b.xml` is named outright, so the exclusion does not drop it.
    assert_eq!(names(&picked), vec!["b.xml"]);
}

#[test]
fn invalid_glob_patterns_match_nothing() {
    let item = item_with_files();
    assert!(item.matching_files(&[], &[], &strings(&["[a"]), &[], false).is_empty());
    let kept = item.matching_files(&[], &[], &strings(&["*.txt"]), &strings(&["[c"]), false);
    assert_eq!(names(&kept), vec!["c.txt"]);
}

#[test]
fn file_descriptor_starts_bare() {
    let f = ArchiveFile::new("id", "name.bin");
    assert_eq!(f.identifier, "id");
    assert_eq!(f.name, "name.bin");
    assert_eq!(f.size, None);
    assert_eq!(f.md5, None);
    assert_eq!(f.duplicate(), f);
}

#[test]
fn selection_given_pattern_outcomes() {
    let item = item_with_files();
    let picked = select_matched_files(
        &item.files,
        &strings(&["c.txt"]),
        &[],
        true,
        &[true, true, false],
        &[false, true, false],
    );
    assert_eq!(names(&picked), vec!["a.jpg", "c.txt"]);
    let no_patterns = select_matched_files(
        &item.files,
        &[],
        &strings(&["JPEG"]),
        false,
        &[true, true, true],
        &[false, false, false],
    );
    assert_eq!(names(&no_patterns), vec!["a.jpg"]);
}
