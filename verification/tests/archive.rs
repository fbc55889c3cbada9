use kist_core::{
    detect_format, open_archive, plan_open, ArchiveError, ArchiveFormat, CompressionLevel,
    FileError,
};
use std::io::{Cursor, Write};
use zip::write::SimpleFileOptions;

fn sample_zip() -> Vec<u8> {
    let mut writer = zip::ZipWriter::new(Cursor::new(Vec::new()));
    let stored = SimpleFileOptions::default().compression_method(zip::CompressionMethod::Stored);
    writer.add_directory("docs/", stored).unwrap();
    writer.start_file("docs/readme.txt", stored).unwrap();
    writer.write_all(b"hello archive").unwrap();
    writer.start_file("a.bin", stored).unwrap();
    writer.write_all(&[7u8; 100]).unwrap();
    writer.finish().unwrap().into_inner()
}

#[test]
fn detects_supported_extensions() {
    assert_eq!(detect_format("photos.zip").unwrap(), ArchiveFormat::Zip);
    assert_eq!(detect_format("backup.tar.gz").unwrap(), ArchiveFormat::TarGz);
    assert_eq!(detect_format("backup.tar.zst").unwrap(), ArchiveFormat::TarZstd);
}

#[test]
fn detects_every_ending_and_ignores_case() {
    assert_eq!(detect_format("music.7z").unwrap(), ArchiveFormat::SevenZip);
    assert_eq!(detect_format("src.tar").unwrap(), ArchiveFormat::Tar);
    assert_eq!(detect_format("src.tgz").unwrap(), ArchiveFormat::TarGz);
    assert_eq!(detect_format("src.tzst").unwrap(), ArchiveFormat::TarZstd);
    assert_eq!(detect_format("BACKUP.TAR.GZ").unwrap(), ArchiveFormat::TarGz);
    assert_eq!(detect_format("Photos.ZiP").unwrap(), ArchiveFormat::Zip);
}

#[test]
fn detects_from_the_file_name_only() {
    assert_eq!(detect_format("/home/me/backups.zip/notes.tar").unwrap(), ArchiveFormat::Tar);
    assert_eq!(detect_format("dir/archive.zip").unwrap(), ArchiveFormat::Zip);
    assert_eq!(detect_format("photos.zip/").unwrap(), ArchiveFormat::Zip);
}

#[test]
fn unknown_ending_reports_the_extension() {
    match detect_format("notes.txt") {
        Err(ArchiveError::UnsupportedFormat(ext)) => assert_eq!(ext, "txt"),
        other => panic!("unexpected {:?}", other),
    }
    match detect_format("README") {
        Err(ArchiveError::UnsupportedFormat(ext)) => assert_eq!(ext, "unknown"),
        other => panic!("unexpected {:?}", other),
    }
    match detect_format("photos.tar.bz2") {
        Err(ArchiveError::UnsupportedFormat(ext)) => assert_eq!(ext, "bz2"),
        other => panic!("unexpected {:?}", other),
    }
}

#[test]
fn labels() {
    assert_eq!(ArchiveFormat::Zip.label(), "ZIP");
    assert_eq!(ArchiveFormat::SevenZip.label(), "7z");
    assert_eq!(ArchiveFormat::Tar.label(), "TAR");
    assert_eq!(ArchiveFormat::TarGz.label(), "TAR.GZ");
    assert_eq!(ArchiveFormat::TarZstd.label(), "TAR.ZST");
}

#[test]
fn default_compression_is_balanced() {
    assert_eq!(CompressionLevel::default(), CompressionLevel::Balanced);
}

#[test]
fn plan_reads_only_zip() {
    assert_eq!(plan_open("a.zip").unwrap(), ArchiveFormat::Zip);
    match plan_open("a.7z") {
        Err(ArchiveError::UnsupportedFormat(name)) => assert_eq!(name, "7z"),
        other => panic!("unexpected {:?}", other),
    }
    match plan_open("a.tar.gz") {
        Err(ArchiveError::UnsupportedFormat(name)) => assert_eq!(name, "TAR.GZ"),
        other => panic!("unexpected {:?}", other),
    }
}

#[test]
fn known_but_unreadable_format_is_unsupported_by_label() {
    match open_archive("backup.tar.zst", Ok(sample_zip())) {
        Err(ArchiveError::UnsupportedFormat(name)) => assert_eq!(name, "TAR.ZST"),
        other => panic!("unexpected {:?}", other),
    }
    match open_archive("backup.rar", Ok(sample_zip())) {
        Err(ArchiveError::UnsupportedFormat(name)) => assert_eq!(name, "rar"),
        other => panic!("unexpected {:?}", other),
    }
}

#[test]
fn opens_a_zip_archive() {
    let document = open_archive("/tmp/sample.zip", Ok(sample_zip())).unwrap();
    assert_eq!(document.summary.path, "/tmp/sample.zip");
    assert_eq!(document.summary.format, ArchiveFormat::Zip);
    assert_eq!(document.summary.entries, 3);
    assert_eq!(document.entries.len(), 3);
    assert_eq!(document.entries[0].path, "docs/");
    assert!(document.entries[0].is_directory);
    assert_eq!(document.entries[1].path, "docs/readme.txt");
    assert_eq!(document.entries[1].size, 13);
    assert_eq!(document.entries[1].compressed_size, Some(13));
    assert!(!document.entries[1].is_directory);
    assert_eq!(document.entries[2].path, "a.bin");
    assert_eq!(document.entries[2].size, 100);
    assert_eq!(document.summary.original_size, 113);
    assert_eq!(document.summary.compressed_size, 113);
}

#[test]
fn refuses_bytes_that_are_not_zip() {
    match open_archive("broken.zip", Ok(b"definitely not a zip archive".to_vec())) {
        Err(ArchiveError::Zip(_)) => {}
        other => panic!("unexpected {:?}", other),
    }
}

#[test]
fn reports_read_errors() {
    let error = std::io::Error::new(std::io::ErrorKind::NotFound, "missing");
    match open_archive("missing.zip", Err(FileError::Open(error))) {
        Err(ArchiveError::Io(e)) => assert_eq!(e.kind(), std::io::ErrorKind::NotFound),
        other => panic!("unexpected {:?}", other),
    }
}

#[test]
fn a_failed_read_is_a_zip_error() {
    let error = std::io::Error::new(std::io::ErrorKind::Other, "disk gone");
    match open_archive("half.zip", Err(FileError::Read(error))) {
        Err(ArchiveError::Zip(text)) => assert_eq!(text, "i/o error: disk gone"),
        other => panic!("unexpected {:?}", other),
    }
}

#[test]
fn error_messages() {
    let error = open_archive("notes.txt", Ok(Vec::new())).unwrap_err();
    assert!(matches!(error, ArchiveError::UnsupportedFormat(ref s) if s == "txt"));
    assert_eq!(error.message(), "unsupported archive format: txt");
    let refused = open_archive("broken.zip", Ok(b"nope".to_vec())).unwrap_err();
    let reason = match zip::ZipArchive::new(std::io::Cursor::new(b"nope".to_vec())) {
        Err(error) => error.to_string(),
        Ok(_) => panic!("accepted"),
    };
    assert_eq!(refused.message(), format!("invalid or damaged ZIP archive: {reason}"));
    match open_archive("broken.zip", Ok(b"nope".to_vec())) {
        Err(ArchiveError::Zip(text)) => assert_eq!(text, reason),
        other => panic!("unexpected {:?}", other),
    }
    let io = ArchiveError::Io(std::io::Error::new(std::io::ErrorKind::NotFound, "no such file"));
    assert_eq!(io.message(), "could not open archive: no such file");
}

#[test]
fn entries_equal_by_fields() {
    let document = open_archive("x.zip", Ok(sample_zip())).unwrap();
    let again = open_archive("x.zip", Ok(sample_zip())).unwrap();
    assert_eq!(document.entries, again.entries);
    assert_eq!(document.summary, again.summary);
    assert_ne!(document.entries[0], document.entries[1]);
}

#[test]
fn an_unreadable_member_reports_the_reader_text() {
    let mut writer = zip::ZipWriter::new(Cursor::new(Vec::new()));
    let plain = SimpleFileOptions::default().compression_method(zip::CompressionMethod::Stored);
    writer.start_file("open.txt", plain).unwrap();
    writer.write_all(b"visible").unwrap();
    let locked = plain.with_aes_encryption(zip::AesMode::Aes256, "secret");
    writer.start_file("locked.txt", locked).unwrap();
    writer.write_all(b"hidden").unwrap();
    let bytes = writer.finish().unwrap().into_inner();
    let mut archive = zip::ZipArchive::new(Cursor::new(bytes.clone())).unwrap();
    let reason = match archive.by_index(1) {
        Err(error) => error.to_string(),
        Ok(_) => panic!("readable without a password"),
    };
    match open_archive("locked.zip", Ok(bytes)) {
        Err(ArchiveError::Zip(text)) => assert_eq!(text, reason),
        other => panic!("unexpected {:?}", other),
    }
}
