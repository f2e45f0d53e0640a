use rzx::formats::find_common_ancestor::find_common_ancestor;
use rzx::formats::rzx::{
    base_path, create_archive, create_archive_at, create_archive_checked, extract_archive, files_to_process,
    is_excluded, level_suits_inputs, list_archive, prepare_entry, selected_algorithm, show_archive_info, test_archive, InputFile, RzxReader,
    RzxWriter,
};
use rzx::rzx_core::codec::FormatError;
use rzx::rzx_core::header::RzxHeader;
use rzx::rzx_core::metadata::{FileEntry, FsMetadata, Time, Timestamp};
use rzx::rzx_core::path::{path_ancestor, path_parent, path_starts_with, path_strip_prefix};
use rzx::rzx_core::{CompressionAlgorithm, Corruption, EncryptionAlgorithm, RzxError};

fn file_md(len: u64) -> FsMetadata {
    FsMetadata {
        is_dir: false,
        len,
        mode: 0o644,
        created: None,
        modified: Some(Time::SinceEpoch(Timestamp { secs: 1_700_000_000, nanos: 5 })),
        accessed: None,
    }
}

fn dir_md() -> FsMetadata {
    FsMetadata { is_dir: true, len: 4096, mode: 0o755, created: None, modified: None, accessed: None }
}

fn build(alg: EncryptionAlgorithm, password: Option<&str>) -> Vec<u8> {
    let mut w = RzxWriter::new(alg, password).unwrap();
    w.add_entry_sequential(FileEntry::new_directory("docs"), &[], 6).unwrap();
    let text = b"The quick brown fox jumps over the lazy dog. ".repeat(20);
    w.add_entry_sequential(FileEntry::new("docs/readme.txt"), &text, 6).unwrap();
    w.add_entry_sequential(FileEntry::new("a.bin"), &[0u8, 1, 2, 3, 4], 3).unwrap();
    w.add_entry_sequential(FileEntry::new("empty.xyz"), &[], 6).unwrap();
    w.finalize().unwrap()
}

fn contents_of(name: &str) -> Vec<u8> {
    match name {
        "docs/readme.txt" => b"The quick brown fox jumps over the lazy dog. ".repeat(20),
        "a.bin" => vec![0u8, 1, 2, 3, 4],
        _ => vec![],
    }
}

#[test]
fn written_archive_reads_back() {
    let archive = build(EncryptionAlgorithm::NoEncryption, None);
    assert_eq!(&archive[0..4], b"RzX\0");
    let reader = RzxReader::new(archive.clone(), None).unwrap();
    let names: Vec<String> = reader.metadata().entries.iter().map(|e| e.path.clone()).collect();
    assert_eq!(names, vec!["docs", "a.bin", "docs/readme.txt", "empty.xyz"]);
    for e in &reader.metadata().entries {
        let data = reader.extract_file(e).unwrap();
        assert_eq!(data, contents_of(&e.path));
    }
    let text_entry = reader.metadata().find_entry("docs/readme.txt").unwrap();
    assert_eq!(text_entry.original_size, 900);
    assert!(text_entry.compressed_size < 900);
    assert_eq!(text_entry.compression, CompressionAlgorithm::Lzma);
    assert_eq!(reader.metadata().find_entry("a.bin").unwrap().compression, CompressionAlgorithm::Deflate);
}

#[test]
fn archive_layout_is_header_metadata_data() {
    let plain = build(EncryptionAlgorithm::NoEncryption, None);
    let h = RzxHeader::from_bytes(&plain).unwrap();
    assert_eq!(h.metadata_offset, 32);
    let reader = RzxReader::new(plain.clone(), None).unwrap();
    let stored: u64 = reader.metadata().entries.iter().map(|e| e.compressed_size).sum();
    assert_eq!(plain.len() as u64, 32 + h.metadata_size + stored);
    let meta = reader.metadata().to_bytes().unwrap();
    assert_eq!(&plain[32..32 + meta.len()], &meta[..]);
    assert_eq!(rzx::rzx_core::checksum::crc32_of(&meta), h.metadata_checksum);

    let sealed = build(EncryptionAlgorithm::Aes256Gcm, Some("pw"));
    let h = RzxHeader::from_bytes(&sealed).unwrap();
    assert_eq!(h.metadata_offset, 60);
    assert!(h.salt.is_some() && h.nonce.is_some());
    let reader = RzxReader::new(sealed.clone(), Some("pw")).unwrap();
    let meta = reader.metadata().to_bytes().unwrap();
    assert_eq!(h.metadata_size, meta.len() as u64 + 16);
    assert_eq!(rzx::rzx_core::checksum::crc32_of(&meta), h.metadata_checksum);
}

#[test]
fn encrypted_archive_reads_back_with_its_password() {
    let archive = build(EncryptionAlgorithm::Aes256Gcm, Some("hunter2"));
    let reader = RzxReader::new(archive.clone(), Some("hunter2")).unwrap();
    assert_eq!(reader.metadata().entries.len(), 4);
    for e in &reader.metadata().entries {
        assert_eq!(reader.extract_file(e).unwrap(), contents_of(&e.path));
    }
    assert!(matches!(RzxReader::new(archive.clone(), None), Err(RzxError::InvalidPassword)));
    assert!(matches!(
        RzxReader::new(archive.clone(), Some("wrong")),
        Err(RzxError::DecryptionError)
    ));
    assert!(test_archive(archive.clone(), Some("hunter2")).is_ok());
    assert!(matches!(test_archive(archive, Some("nope")), Err(RzxError::DecryptionError)));
}

#[test]
fn damaged_archives_are_refused() {
    let archive = build(EncryptionAlgorithm::NoEncryption, None);
    let mut bad = archive.clone();
    bad[0] = b'Z';
    assert!(matches!(RzxReader::new(bad, None), Err(RzxError::InvalidMagic)));

    let mut newer = archive.clone();
    newer[4] = 2;
    assert!(matches!(RzxReader::new(newer, None), Err(RzxError::UnsupportedVersion(2))));

    assert!(matches!(
        RzxReader::new(archive[..10].to_vec(), None),
        Err(RzxError::Serialization(FormatError::UnexpectedEnd))
    ));
    assert!(matches!(RzxReader::new(archive[..40].to_vec(), None), Err(RzxError::Io)));

    let mut flipped = archive.clone();
    flipped[32] ^= 0xFF;
    assert!(matches!(RzxReader::new(flipped, None), Err(RzxError::ChecksumMismatch)));
}

#[test]
fn damaged_file_data_fails_its_checksum() {
    let mut w = RzxWriter::new(EncryptionAlgorithm::NoEncryption, None).unwrap();
    let mut entry = FileEntry::new("raw.dat");
    entry.compression = CompressionAlgorithm::NoCompression;
    w.add_entry_sequential(entry, b"abcdef", 6).unwrap();
    let mut archive = w.finalize().unwrap();
    let header = RzxHeader::from_bytes(&archive).unwrap();
    let data_start = (header.metadata_offset + header.metadata_size) as usize;
    assert_eq!(archive.len(), data_start + 6);
    archive[data_start] ^= 1;
    let reader = RzxReader::new(archive, None).unwrap();
    let e = reader.metadata().entries[0].clone();
    assert_eq!(e.data_offset, 0);
    assert_eq!(e.compressed_size, 6);
    assert!(matches!(reader.extract_file(&e), Err(RzxError::ChecksumMismatch)));
}

#[test]
fn finalize_refuses_invalid_metadata() {
    let mut w = RzxWriter::new(EncryptionAlgorithm::NoEncryption, None).unwrap();
    w.add_entry_sequential(FileEntry::new("same.txt"), b"one", 6).unwrap();
    w.add_entry_sequential(FileEntry::new("./x/../same.txt"), b"two", 6).unwrap();
    assert!(w.finalize().is_ok());

    let mut w = RzxWriter::new(EncryptionAlgorithm::NoEncryption, None).unwrap();
    w.add_entry_sequential(FileEntry::new("same.txt"), b"one", 6).unwrap();
    w.add_entry_sequential(FileEntry::new("same.txt/"), b"two", 6).unwrap();
    match w.finalize() {
        Err(RzxError::CorruptedArchive(Corruption::DuplicatePath(p))) => {
            assert!(p == "same.txt/" || p == "same.txt")
        },
        _ => panic!("expected a duplicate path"),
    }

    let mut w = RzxWriter::new(EncryptionAlgorithm::NoEncryption, None).unwrap();
    w.add_entry_sequential(FileEntry::new(""), b"x", 6).unwrap();
    assert!(matches!(
        w.finalize(),
        Err(RzxError::CorruptedArchive(Corruption::EmptyPath))
    ));
}

#[test]
fn paths_by_components() {
    assert_eq!(path_parent("/a/b").unwrap(), "/a");
    assert_eq!(path_parent("/a").unwrap(), "/");
    assert_eq!(path_parent("a").unwrap(), "");
    assert_eq!(path_parent("./a").unwrap(), ".");
    assert_eq!(path_parent("a/b/").unwrap(), "a");
    assert!(path_parent("/").is_none());
    assert!(path_parent("").is_none());
    assert!(path_starts_with("/tmp/x/y", "/tmp/x"));
    assert!(path_starts_with("/tmp/x/y", "/tmp//x/"));
    assert!(!path_starts_with("/tmp/xy", "/tmp/x"));
    assert_eq!(path_strip_prefix("/tmp/x/file.txt", "/tmp/x").unwrap(), "file.txt");
    assert_eq!(path_strip_prefix("a/./b/c/", "a").unwrap(), "b/c/");
    assert_eq!(path_strip_prefix("a//b", "a").unwrap(), "b");
    assert_eq!(path_strip_prefix("/a", "/").unwrap(), "a");
    assert_eq!(path_strip_prefix("a", "a").unwrap(), "");
    assert_eq!(path_strip_prefix("x/y", "").unwrap(), "x/y");
    assert!(path_strip_prefix("a", "b").is_none());
    assert_eq!(path_ancestor("/a/b/c", 3), "/a/b");
    assert_eq!(path_ancestor("/a/b/c", 1), "/");
    assert_eq!(path_ancestor("./a/b", 1), ".");
}

#[test]
fn common_ancestors() {
    let v = |xs: &[&str]| xs.iter().map(|s| s.to_string()).collect::<Vec<String>>();
    assert_eq!(find_common_ancestor(&v(&["/a/b/c", "/a/b/d/e"])).unwrap(), "/a/b");
    assert_eq!(find_common_ancestor(&v(&["/a/b", "/a/b/c"])).unwrap(), "/a/b");
    assert_eq!(find_common_ancestor(&v(&["/a/b/c"])).unwrap(), "/a/b/c");
    assert_eq!(find_common_ancestor(&v(&["/x", "/y"])).unwrap(), "/");
    assert_eq!(find_common_ancestor(&v(&["/x", "y"])).unwrap(), "/");
    assert_eq!(find_common_ancestor(&v(&["a/b", "c"])).unwrap(), "");
    assert!(find_common_ancestor(&[]).is_none());
}

#[test]
fn selecting_inputs() {
    assert_eq!(base_path("/home/u/project"), "/home/u");
    assert_eq!(base_path("project"), "");
    assert_eq!(base_path("/"), "/");
    let ex = vec!["log".to_string(), "temp/".to_string()];
    assert!(is_excluded("app.log", &ex));
    assert!(is_excluded("a/temp/b", &ex));
    assert!(!is_excluded("temp", &ex));
    assert!(is_excluded("anything", &vec!["".to_string()]));
    let cands = vec![
        "/home/u/project".to_string(),
        "/home/u/project/main.rs".to_string(),
        "/home/u/project/run.log".to_string(),
        "/home/u/project/temp/x".to_string(),
    ];
    assert_eq!(
        files_to_process("/home/u", &cands, &ex).unwrap(),
        vec!["/home/u/project".to_string(), "/home/u/project/main.rs".to_string()]
    );
    assert!(matches!(
        files_to_process("/home/u", &vec!["/etc/passwd".to_string()], &ex),
        Err(RzxError::Io)
    ));
    let e = prepare_entry("/home/u/project/main.rs", "/home/u", &file_md(12)).unwrap();
    assert_eq!(e.path, "project/main.rs");
    assert_eq!(e.original_size, 12);
    assert!(!e.is_directory);
    let d = prepare_entry("/home/u/project", "/home/u", &dir_md()).unwrap();
    assert_eq!(d.path, "project");
    assert!(d.is_directory);
    assert_eq!(d.original_size, 0);
    assert_eq!(d.permissions, 0o755);
    assert!(prepare_entry("/etc", "/home/u", &dir_md()).is_none());
    assert_eq!(selected_algorithm("LZMA").unwrap(), CompressionAlgorithm::Lzma);
    assert!(matches!(selected_algorithm("brotli"), Err(RzxError::UnsupportedCompression(0))));
}

#[test]
fn create_list_extract_and_info() {
    let inputs = vec![
        InputFile { path: "/data/set".to_string(), metadata: Some(dir_md()), contents: vec![] },
        InputFile {
            path: "/data/set/notes.txt".to_string(),
            metadata: Some(file_md(11)),
            contents: b"hello notes".to_vec(),
        },
        InputFile { path: "/data/set/gone".to_string(), metadata: None, contents: vec![] },
        InputFile {
            path: "/data/set/blob.bin".to_string(),
            metadata: Some(file_md(300)),
            contents: vec![9u8; 300],
        },
    ];
    let archive = create_archive("/data", inputs, &[], 6, "deflate", EncryptionAlgorithm::Aes256Gcm, Some("pw"))
        .unwrap();
    let listed = list_archive(archive.clone(), Some("pw")).unwrap();
    let names: Vec<&str> = listed.entries.iter().map(|e| e.path.as_str()).collect();
    assert_eq!(names, vec!["set", "set/blob.bin", "set/notes.txt"]);
    let (meta, contents) = extract_archive(archive.clone(), Some("pw")).unwrap();
    assert_eq!(meta.entries.len(), 3);
    assert_eq!(contents[0], Vec::<u8>::new());
    assert_eq!(contents[1], vec![9u8; 300]);
    assert_eq!(contents[2], b"hello notes".to_vec());
    assert_eq!(meta.entries[2].modified, Some(Time::SinceEpoch(Timestamp { secs: 1_700_000_000, nanos: 5 })));
    let info = show_archive_info(archive.clone(), Some("pw")).unwrap();
    assert_eq!(info.creator, "rzx-compressor v0.1.0");
    assert_eq!(info.total_files, 2);
    assert_eq!(info.total_directories, 1);
    assert_eq!(info.total_original_size, 311);
    assert!(info.comment.is_none());
    assert!(matches!(list_archive(archive, None), Err(RzxError::InvalidPassword)));

    let bad = create_archive("/data", vec![], &[], 6, "rar", EncryptionAlgorithm::NoEncryption, None);
    assert!(matches!(bad, Err(RzxError::UnsupportedCompression(0))));
    let empty = create_archive("/data", vec![], &[], 6, "zstd", EncryptionAlgorithm::NoEncryption, None).unwrap();
    assert_eq!(list_archive(empty, None).unwrap().entries.len(), 0);
}

#[test]
fn magic_and_version_are_checked_first() {
    let newer = vec![b'R', b'z', b'X', 0, 2, 0];
    assert!(matches!(RzxReader::new(newer, None), Err(RzxError::UnsupportedVersion(2))));
    let mut wrong = vec![0xAAu8; 64];
    wrong[0..4].copy_from_slice(b"ZIP\0");
    wrong[10] = 7;
    assert!(matches!(RzxReader::new(wrong, None), Err(RzxError::InvalidMagic)));
    assert!(matches!(
        RzxReader::new(vec![b'R', b'z'], None),
        Err(RzxError::Serialization(FormatError::UnexpectedEnd))
    ));
    assert!(matches!(
        RzxReader::new(vec![b'R', b'z', b'X', 0, 1], None),
        Err(RzxError::Serialization(FormatError::UnexpectedEnd))
    ));
}

#[test]
fn exclude_patterns_are_globs() {
    let ex = vec!["*.tmp".to_string(), "*.log".to_string()];
    assert!(is_excluded("dir/a.log", &ex));
    assert!(is_excluded("b.tmp", &ex));
    assert!(!is_excluded("dir/a.txt", &ex));
    assert!(!is_excluded("a.logger", &ex));
    let q = vec!["f?.txt".to_string()];
    assert!(is_excluded("f1.txt", &q));
    assert!(!is_excluded("f12.txt", &q));
    assert!(is_excluded("temp", &vec!["temp".to_string()]));
    let cands = vec![
        "/w/dir".to_string(),
        "/w/dir/a.log".to_string(),
        "/w/dir/a.txt".to_string(),
        "/w/dir/b.tmp".to_string(),
    ];
    assert_eq!(
        files_to_process("/w", &cands, &ex).unwrap(),
        vec!["/w/dir".to_string(), "/w/dir/a.txt".to_string()]
    );
}

#[test]
fn testing_an_archive_checks_every_entry() {
    let mut w = RzxWriter::new(EncryptionAlgorithm::NoEncryption, None).unwrap();
    let mut entry = FileEntry::new("raw.dat");
    entry.compression = CompressionAlgorithm::NoCompression;
    w.add_entry_sequential(entry, b"abcdef", 6).unwrap();
    let mut archive = w.finalize().unwrap();
    assert!(test_archive(archive.clone(), None).is_ok());
    let last = archive.len() - 1;
    archive[last] ^= 0x20;
    assert!(RzxReader::new(archive.clone(), None).is_ok());
    assert!(matches!(test_archive(archive, None), Err(RzxError::ChecksumMismatch)));
}

#[test]
fn create_archive_refuses_shared_paths_and_old_times() {
    let twice = vec![
        InputFile { path: "/d/x.txt".to_string(), metadata: Some(file_md(1)), contents: b"a".to_vec() },
        InputFile { path: "/d/./x.txt".to_string(), metadata: Some(file_md(1)), contents: b"b".to_vec() },
    ];
    assert!(matches!(
        create_archive("/d", twice, &[], 6, "none", EncryptionAlgorithm::NoEncryption, None),
        Err(RzxError::CorruptedArchive(Corruption::DuplicatePath(_)))
    ));
    let mut old = file_md(3);
    old.modified = Some(Time::BeforeEpoch);
    let inputs = vec![InputFile { path: "/d/old.txt".to_string(), metadata: Some(old), contents: b"abc".to_vec() }];
    assert!(matches!(
        create_archive("/d", inputs, &[], 6, "none", EncryptionAlgorithm::NoEncryption, None),
        Err(RzxError::Serialization(FormatError::TimeBeforeEpoch))
    ));
    let at_base = vec![InputFile { path: "/d".to_string(), metadata: Some(file_md(1)), contents: b"z".to_vec() }];
    assert!(matches!(
        create_archive("/d", at_base, &[], 6, "none", EncryptionAlgorithm::NoEncryption, None),
        Err(RzxError::CorruptedArchive(Corruption::EmptyPath))
    ));
    let bad = vec![InputFile { path: "/d/x".to_string(), metadata: Some(file_md(1)), contents: b"z".to_vec() }];
    assert!(matches!(
        create_archive("/d", bad, &[], 99, "bogus", EncryptionAlgorithm::NoEncryption, None),
        Err(RzxError::UnsupportedCompression(0))
    ));
}

#[test]
fn deflate_levels_are_checked_before_creating() {
    let bin = || vec![InputFile { path: "/d/x.bin".to_string(), metadata: Some(file_md(300)), contents: vec![7u8; 300] }];
    let txt = || vec![InputFile { path: "/d/x.txt".to_string(), metadata: Some(file_md(5)), contents: b"hello".to_vec() }];
    assert!(!level_suits_inputs("/d", &bin(), &[], 11));
    assert!(level_suits_inputs("/d", &bin(), &[], 10));
    assert!(level_suits_inputs("/d", &txt(), &[], 11));
    assert!(create_archive_checked("/d", bin(), &[], 11, "none", EncryptionAlgorithm::NoEncryption, None).is_none());
    assert!(matches!(
        create_archive_checked("/d", bin(), &[], 11, "bogus", EncryptionAlgorithm::NoEncryption, None),
        Some(Err(RzxError::UnsupportedCompression(0)))
    ));
    let made = create_archive_checked("/d", txt(), &[], 11, "LZMA", EncryptionAlgorithm::NoEncryption, None)
        .unwrap()
        .unwrap();
    let (meta, contents) = extract_archive(made, None).unwrap();
    assert_eq!(meta.entries.len(), 1);
    assert_eq!(contents[0], b"hello".to_vec());
}

#[test]
fn create_archive_at_stamps_the_given_time() {
    let now = Time::SinceEpoch(Timestamp { secs: 1_600_000_000, nanos: 42 });
    let inputs = vec![InputFile { path: "/d/x.txt".to_string(), metadata: Some(file_md(5)), contents: b"hello".to_vec() }];
    let a = create_archive_at("/d", inputs, &[], 6, "none", EncryptionAlgorithm::NoEncryption, None, now).unwrap();
    let listed = list_archive(a, None).unwrap();
    assert_eq!(listed.created_at, now);
    assert_eq!(listed.modified_at, now);
    assert_eq!(listed.creator, "rzx-compressor v0.1.0");
    assert!(listed.comment.is_none());
    assert!(listed.custom_fields.is_empty());
    let inputs = vec![InputFile { path: "/d/x.txt".to_string(), metadata: Some(file_md(5)), contents: b"hello".to_vec() }];
    assert!(matches!(
        create_archive_at("/d", inputs, &[], 6, "none", EncryptionAlgorithm::NoEncryption, None, Time::BeforeEpoch),
        Err(RzxError::Serialization(FormatError::TimeBeforeEpoch))
    ));
}

#[test]
fn create_archive_leaves_out_excluded_inputs() {
    let inputs = vec![
        InputFile { path: "/w/dir".to_string(), metadata: Some(dir_md()), contents: vec![] },
        InputFile { path: "/w/dir/a.log".to_string(), metadata: Some(file_md(3)), contents: b"log".to_vec() },
        InputFile { path: "/w/dir/a.txt".to_string(), metadata: Some(file_md(3)), contents: b"txt".to_vec() },
    ];
    let ex = vec!["*.log".to_string()];
    let a = create_archive("/w", inputs, &ex, 6, "deflate", EncryptionAlgorithm::NoEncryption, None).unwrap();
    let (meta, contents) = extract_archive(a, None).unwrap();
    let names: Vec<&str> = meta.entries.iter().map(|e| e.path.as_str()).collect();
    assert_eq!(names, vec!["dir", "dir/a.txt"]);
    assert_eq!(contents[1], b"txt".to_vec());
}

#[test]
fn common_ancestor_is_deepest_in_any_order() {
    let v = |xs: &[&str]| xs.iter().map(|s| s.to_string()).collect::<Vec<String>>();
    let one = find_common_ancestor(&v(&["/a/b/c/x", "/a/b/d", "/a/b/c/y"])).unwrap();
    let two = find_common_ancestor(&v(&["/a/b/d", "/a/b/c/y", "/a/b/c/x"])).unwrap();
    assert_eq!(one, "/a/b");
    assert_eq!(one, two);
}
