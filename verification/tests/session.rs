use kist_core::{open_archive, plan_open, ArchiveError, KistApp};
use std::io::Cursor;

fn document(path: &str) -> kist_core::ArchiveDocument {
    let writer = zip::ZipWriter::new(Cursor::new(Vec::new()));
    let bytes = writer.finish().unwrap().into_inner();
    open_archive(path, Ok(bytes)).unwrap()
}

#[test]
fn opening_moves_the_archive_to_the_front() {
    let mut app = KistApp::default();
    app.current_path = "docs".to_owned();
    app.search_query = "x".to_owned();
    app.error = Some("old".to_owned());
    for name in ["a.zip", "b.zip", "a.zip"] {
        app.open_path(name.to_owned(), Ok(document(name)));
    }
    assert_eq!(app.recent_archives, vec!["a.zip", "b.zip"]);
    assert!(app.document.is_some());
    assert!(app.current_path.is_empty());
    assert!(app.search_query.is_empty());
    assert!(app.error.is_none());
}

#[test]
fn same_path_in_another_spelling_is_not_repeated() {
    let mut app = KistApp::default();
    app.open_path("dir/a.zip".to_owned(), Ok(document("dir/a.zip")));
    app.open_path("dir//a.zip".to_owned(), Ok(document("dir//a.zip")));
    assert_eq!(app.recent_archives, vec!["dir//a.zip"]);
}

#[test]
fn at_most_six_recent_archives() {
    let mut app = KistApp::default();
    for i in 0..9 {
        let name = format!("{i}.zip");
        app.open_path(name.clone(), Ok(document(&name)));
    }
    assert_eq!(app.recent_archives, vec!["8.zip", "7.zip", "6.zip", "5.zip", "4.zip", "3.zip"]);
}

#[test]
fn failure_shows_the_message_only() {
    let mut app = KistApp::default();
    app.open_path("a.zip".to_owned(), Ok(document("a.zip")));
    app.current_path = "inner".to_owned();
    app.open_path("b.7z".to_owned(), Err(ArchiveError::UnsupportedFormat("7z".to_owned())));
    assert_eq!(app.error.as_deref(), Some("unsupported archive format: 7z"));
    assert_eq!(app.current_path, "inner");
    assert_eq!(app.recent_archives, vec!["a.zip"]);
    assert_eq!(app.document.unwrap().summary.path, "a.zip");
}

#[test]
fn opening_an_unsupported_file_shows_its_message() {
    let mut app = KistApp::default();
    let opened = plan_open("notes.txt").and_then(|_| open_archive("notes.txt", Ok(Vec::new())));
    app.open_path("notes.txt".to_owned(), opened);
    assert_eq!(app.error.as_deref(), Some("unsupported archive format: txt"));
    assert!(app.document.is_none());
    assert!(app.recent_archives.is_empty());
    assert!(app.current_path.is_empty());
    assert!(app.search_query.is_empty());
}

#[test]
fn recent_list_never_repeats_a_path() {
    let mut app = KistApp::default();
    for name in ["a.zip", "b.zip", "./a.zip", "c.zip", "b.zip/", "a.zip"] {
        app.open_path(name.to_owned(), Ok(document(name)));
        for i in 0..app.recent_archives.len() {
            for j in i + 1..app.recent_archives.len() {
                assert_ne!(
                    std::path::Path::new(&app.recent_archives[i]),
                    std::path::Path::new(&app.recent_archives[j])
                );
            }
        }
    }
    assert_eq!(app.recent_archives, vec!["a.zip", "b.zip/", "c.zip", "./a.zip"]);
}
