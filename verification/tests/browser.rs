use kist_core::{
    breadcrumb_trail, byte_unit, display_name, file_type, normalize_path, parent_path, search_rows, unit_label,
    visible_rows, ArchiveEntry, BrowserRow,
};

fn entry(path: &str, size: u64, is_directory: bool) -> ArchiveEntry {
    ArchiveEntry { path: path.to_owned(), size, compressed_size: Some(size / 2), is_directory }
}

fn names(rows: &[BrowserRow]) -> Vec<String> {
    rows.iter().map(|row| row.name.clone()).collect()
}

fn sample() -> Vec<ArchiveEntry> {
    vec![
        entry("docs/", 0, true),
        entry("docs/readme.txt", 10, false),
        entry("docs/images/logo.png", 20, false),
        entry("b.txt", 30, false),
        entry("A.txt", 40, false),
        entry("a.txt", 50, false),
        entry("Zeta/", 0, true),
    ]
}

#[test]
fn root_lists_folders_first_then_case_insensitive_names() {
    let rows = visible_rows(&sample(), "");
    assert_eq!(names(&rows), vec!["docs", "Zeta", "A.txt", "a.txt", "b.txt"]);
    assert!(rows[0].is_directory && rows[1].is_directory);
    assert_eq!(rows[0].path, "docs");
    assert_eq!(rows[0].size, 0);
    assert_eq!(rows[0].compressed_size, None);
    assert_eq!(rows[2].size, 40);
    assert_eq!(rows[2].compressed_size, Some(20));
}

#[test]
fn inner_folder_lists_its_children() {
    let rows = visible_rows(&sample(), "docs");
    assert_eq!(names(&rows), vec!["images", "readme.txt"]);
    assert_eq!(rows[0].path, "docs/images");
    assert!(rows[0].is_directory);
    assert_eq!(rows[1].path, "docs/readme.txt");
    assert_eq!(rows[1].size, 10);
    let with_slash = visible_rows(&sample(), "docs/");
    assert_eq!(names(&with_slash), vec!["images", "readme.txt"]);
    assert_eq!(with_slash[0].path, "docs//images");
}

#[test]
fn later_file_entry_sets_folder_row_sizes() {
    let entries = vec![entry("x/inner.txt", 5, false), entry("x", 9, false)];
    let rows = visible_rows(&entries, "");
    assert_eq!(rows.len(), 1);
    assert!(rows[0].is_directory);
    assert_eq!(rows[0].size, 9);
    assert_eq!(rows[0].compressed_size, Some(4));
}

#[test]
fn backslashes_and_outer_slashes_are_normalized() {
    let entries = vec![entry("\\win\\file.txt", 3, false), entry("/lead/", 0, true)];
    let rows = visible_rows(&entries, "");
    assert_eq!(names(&rows), vec!["lead", "win"]);
    assert_eq!(normalize_path("\\dir\\file/"), "dir/file");
    assert_eq!(normalize_path("///"), "");
}

#[test]
fn going_back_from_a_row_returns_to_the_folder() {
    for folder in ["", "docs", "docs/images"] {
        for row in visible_rows(&sample(), folder) {
            assert_eq!(parent_path(&row.path), folder);
        }
    }
}

#[test]
fn parent_paths() {
    assert_eq!(parent_path("docs/images"), "docs");
    assert_eq!(parent_path("docs"), "");
    assert_eq!(parent_path(""), "");
    assert_eq!(parent_path("a/b/"), "a/b");
}

#[test]
fn search_keeps_matching_rows() {
    let rows = visible_rows(&sample(), "");
    let all = search_rows(rows.clone(), "  \t");
    assert_eq!(names(&all), names(&rows));
    let found = search_rows(rows.clone(), "A.T");
    assert_eq!(names(&found), vec!["A.txt", "a.txt"]);
    let none = search_rows(rows, "zip");
    assert!(none.is_empty());
}

#[test]
fn breadcrumbs_build_cumulative_targets() {
    let trail = breadcrumb_trail("docs/images");
    assert_eq!(trail.len(), 2);
    assert_eq!(trail[0].label, "docs");
    assert_eq!(trail[0].target, "docs");
    assert_eq!(trail[1].label, "images");
    assert_eq!(trail[1].target, "docs/images");
    let messy = breadcrumb_trail("//a//b/");
    assert_eq!(messy.len(), 2);
    assert_eq!(messy[1].target, "a/b");
    assert!(breadcrumb_trail("").is_empty());
    for pair in trail.windows(2) {
        assert_eq!(parent_path(&pair[1].target), pair[0].target);
    }
}

#[test]
fn file_types() {
    assert_eq!(file_type("photo.PNG"), "PNG");
    assert_eq!(file_type("archive.tar.gz"), "gz");
    assert_eq!(file_type("Makefile"), "File");
    assert_eq!(file_type(".bashrc"), "File");
}

#[test]
fn byte_units() {
    assert_eq!(byte_unit(0), 0);
    assert_eq!(byte_unit(1023), 0);
    assert_eq!(byte_unit(1024), 1);
    assert_eq!(byte_unit(1024 * 1024 - 1), 1);
    assert_eq!(byte_unit(1024 * 1024), 2);
    assert_eq!(byte_unit(1024 * 1024 * 1024), 3);
    assert_eq!(byte_unit(1024u64.pow(4)), 4);
    assert_eq!(byte_unit(u64::MAX), 4);
    assert_eq!(unit_label(0), "B");
    assert_eq!(unit_label(2), "MB");
    assert_eq!(unit_label(4), "TB");
}

#[test]
fn display_names() {
    assert_eq!(display_name("/home/me/photos.zip"), "photos.zip");
    assert_eq!(display_name("backup.tar.gz"), "backup.tar.gz");
    assert_eq!(display_name("/"), "Archive");
    assert_eq!(display_name(""), "Archive");
}

#[test]
fn normalizing_twice_changes_nothing() {
    for p in ["\\a\\b//", "/x/y/", "plain", "///"] {
        let once = normalize_path(p);
        assert!(!once.contains('\\'));
        assert!(!once.starts_with('/') && !once.ends_with('/'));
        assert_eq!(normalize_path(&once), once);
    }
}

#[test]
fn whitespace_matches_std() {
    for code in 0u32..=0x10FFFF {
        if let Some(c) = char::from_u32(code) {
            assert_eq!(kist_core::text::is_whitespace(c), c.is_whitespace(), "{code:#x}");
        }
    }
    let rows = visible_rows(&sample(), "");
    assert_eq!(search_rows(rows.clone(), "\u{3000}\u{2028}").len(), rows.len());
}
