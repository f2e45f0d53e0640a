use rzx::rzx_core::checksum::crc32_of;
use rzx::rzx_core::codec::FormatError;
use rzx::rzx_core::compression::{
    compress, decompress, default_compression_level, select_compression_algorithm,
};
use rzx::rzx_core::encryption::{decrypt, derive_key, encrypt, generate_nonce, generate_salt};
use rzx::rzx_core::header::RzxHeader;
use rzx::rzx_core::metadata::{ArchiveMetadata, FileEntry, FsMetadata, Time, Timestamp};
use rzx::rzx_core::{
    CompressionAlgorithm, Corruption, EncryptionAlgorithm, FileType, RzxError, RZX_MAGIC,
    RZX_VERSION,
};

#[test]
fn test_compression_decompression() {
    let data = b"hello world";

    for &alg in &[
        CompressionAlgorithm::Deflate,
        CompressionAlgorithm::Lzma,
        CompressionAlgorithm::Zstd,
    ] {
        let compressed_data = compress(alg, data, 6).unwrap();
        let decompressed_data = decompress(alg, &compressed_data).unwrap();
        assert_eq!(data.to_vec(), decompressed_data);
    }
}

#[test]
fn test_aes256gcm_encryption_decryption() {
    let password = b"mysecretpassword";
    let salt = generate_salt();
    let nonce = generate_nonce();
    let key = derive_key(password, &salt);
    let plaintext = b"Hello, world!";

    let encrypted_data = encrypt(EncryptionAlgorithm::Aes256Gcm, &key, &nonce, plaintext).unwrap();
    let decrypted_data =
        decrypt(EncryptionAlgorithm::Aes256Gcm, &key, &nonce, &encrypted_data).unwrap();

    assert_eq!(plaintext.to_vec(), decrypted_data);
}

#[test]
fn test_header_serialization() {
    let header = RzxHeader::new(EncryptionAlgorithm::NoEncryption, None, None, 1024, 2048, 0x12345678);
    let bytes = header.to_bytes().unwrap();
    let deserialized = RzxHeader::from_bytes(&bytes).unwrap();

    assert_eq!(header.magic, deserialized.magic);
    assert_eq!(header.version, deserialized.version);
    assert_eq!(header.encryption_algorithm, deserialized.encryption_algorithm);
    assert_eq!(header.salt, deserialized.salt);
    assert_eq!(header.nonce, deserialized.nonce);
    assert_eq!(header.metadata_offset, deserialized.metadata_offset);
    assert_eq!(header.metadata_size, deserialized.metadata_size);
    assert_eq!(header.metadata_checksum, deserialized.metadata_checksum);
}

#[test]
fn test_header_validation() {
    let header = RzxHeader::new(EncryptionAlgorithm::NoEncryption, None, None, 0, 0, 0);
    assert!(header.validate().is_ok());

    let mut bad_magic = header.clone();
    bad_magic.magic = [0; 4];
    assert!(matches!(bad_magic.validate(), Err(RzxError::InvalidMagic)));

    let mut bad_version = header.clone();
    bad_version.version = RZX_VERSION + 1;
    assert!(matches!(bad_version.validate(), Err(RzxError::UnsupportedVersion(_))));

    let mut encrypted_no_salt = header.clone();
    encrypted_no_salt.encryption_algorithm = EncryptionAlgorithm::Aes256Gcm;
    encrypted_no_salt.salt = None;
    encrypted_no_salt.nonce = Some([0; 12]);
    assert!(matches!(encrypted_no_salt.validate(), Err(RzxError::CorruptedArchive(_))));

    let mut encrypted_no_nonce = header.clone();
    encrypted_no_nonce.encryption_algorithm = EncryptionAlgorithm::Aes256Gcm;
    encrypted_no_nonce.salt = Some([0; 16]);
    encrypted_no_nonce.nonce = None;
    assert!(matches!(encrypted_no_nonce.validate(), Err(RzxError::CorruptedArchive(_))));
}

#[test]
fn test_file_entry_creation() {
    let entry = FileEntry::new("test.txt");
    assert_eq!(entry.path, "test.txt");
    assert_eq!(entry.file_type, FileType::Text);
    assert!(!entry.is_directory);
}

#[test]
fn test_directory_entry() {
    let entry = FileEntry::new_directory("test_dir");
    assert!(entry.is_directory);
    assert_eq!(entry.permissions, 0o755);
}

#[test]
fn test_metadata_serialization() {
    let mut metadata = ArchiveMetadata::new();
    metadata.add_entry(FileEntry::new("test.txt"));

    let bytes = metadata.to_bytes().unwrap();
    let deserialized = ArchiveMetadata::from_bytes(&bytes).unwrap();

    assert_eq!(metadata.entries.len(), deserialized.entries.len());
    assert_eq!(metadata.entries[0].path, deserialized.entries[0].path);
}

#[test]
fn crc32_check_value() {
    assert_eq!(crc32_of(b"123456789"), 0xCBF4_3926);
    assert_eq!(crc32_of(b""), 0);
}

#[test]
fn compression_choice_by_type_and_size() {
    assert_eq!(default_compression_level(), 6);
    assert_eq!(
        select_compression_algorithm(FileType::Text, 99),
        CompressionAlgorithm::NoCompression
    );
    assert_eq!(select_compression_algorithm(FileType::Text, 100), CompressionAlgorithm::Deflate);
    assert_eq!(
        select_compression_algorithm(FileType::Document, 1024 * 1024 + 1),
        CompressionAlgorithm::Lzma
    );
    assert_eq!(
        select_compression_algorithm(FileType::Text, 1024 * 1024),
        CompressionAlgorithm::Deflate
    );
    assert_eq!(select_compression_algorithm(FileType::Binary, 5000), CompressionAlgorithm::Zstd);
    assert_eq!(
        select_compression_algorithm(FileType::Image, 5000),
        CompressionAlgorithm::NoCompression
    );
    assert_eq!(select_compression_algorithm(FileType::Unknown, 5000), CompressionAlgorithm::Deflate);
}

#[test]
fn uncompressed_data_is_copied() {
    let data = b"plain bytes";
    assert_eq!(compress(CompressionAlgorithm::NoCompression, data, 6).unwrap(), data.to_vec());
    for alg in [CompressionAlgorithm::Deflate, CompressionAlgorithm::Lzma, CompressionAlgorithm::Zstd] {
        let packed = compress(alg, &[7u8; 1000], 6).unwrap();
        assert!(packed.len() < 1000);
        assert_ne!(packed, vec![7u8; 1000]);
        assert_eq!(decompress(alg, &packed).unwrap(), vec![7u8; 1000]);
    }
}

#[test]
fn corrupt_compressed_data_is_refused() {
    assert!(matches!(
        decompress(CompressionAlgorithm::Lzma, b"not lzma at all"),
        Err(RzxError::Lzma)
    ));
    assert!(matches!(
        decompress(CompressionAlgorithm::Zstd, b"not zstd"),
        Err(RzxError::Io)
    ));
}

#[test]
fn wrong_key_fails_to_decrypt() {
    let salt = [1u8; 16];
    let nonce = [2u8; 12];
    let key = derive_key(b"right", &salt);
    let other = derive_key(b"wrong", &salt);
    assert_ne!(key, other);
    assert_eq!(key, derive_key(b"right", &salt));
    let sealed = encrypt(EncryptionAlgorithm::Aes256Gcm, &key, &nonce, b"secret").unwrap();
    assert_eq!(sealed.len(), 6 + 16);
    assert_ne!(&sealed[..6], b"secret");
    assert!(matches!(
        decrypt(EncryptionAlgorithm::Aes256Gcm, &other, &nonce, &sealed),
        Err(RzxError::DecryptionError)
    ));
    assert_eq!(
        encrypt(EncryptionAlgorithm::NoEncryption, &key, &nonce, b"secret").unwrap(),
        b"secret".to_vec()
    );
}

#[test]
fn header_bytes_layout() {
    let header = RzxHeader::new(EncryptionAlgorithm::NoEncryption, None, None, 1024, 2048, 0x12345678);
    let bytes = header.to_bytes().unwrap();
    assert_eq!(bytes.len(), 32);
    assert_eq!(&bytes[0..4], &RZX_MAGIC);
    assert_eq!(&bytes[4..6], &[1, 0]);
    assert_eq!(&bytes[6..10], &[0, 0, 0, 0]);
    assert_eq!(bytes[10], 0);
    assert_eq!(bytes[11], 0);
    assert_eq!(&bytes[12..20], &1024u64.to_le_bytes());
    assert_eq!(&bytes[20..28], &2048u64.to_le_bytes());
    assert_eq!(&bytes[28..32], &0x12345678u32.to_le_bytes());

    let expected = bincode::serialize(&(
        RZX_MAGIC,
        RZX_VERSION,
        0u32,
        None::<[u8; 16]>,
        None::<[u8; 12]>,
        1024u64,
        2048u64,
        0x12345678u32,
    ))
    .unwrap();
    assert_eq!(bytes, expected);

    let enc = RzxHeader::new(EncryptionAlgorithm::Aes256Gcm, Some([3; 16]), Some([4; 12]), 5, 6, 7);
    let enc_bytes = enc.to_bytes().unwrap();
    assert_eq!(enc_bytes.len(), 60);
    let expected = bincode::serialize(&(
        RZX_MAGIC,
        RZX_VERSION,
        1u32,
        Some([3u8; 16]),
        Some([4u8; 12]),
        5u64,
        6u64,
        7u32,
    ))
    .unwrap();
    assert_eq!(enc_bytes, expected);
    let back = RzxHeader::from_bytes(&enc_bytes).unwrap();
    assert_eq!(back.salt, Some([3; 16]));
    assert_eq!(back.nonce, Some([4; 12]));
}

#[test]
fn header_decoding_errors() {
    assert!(matches!(
        RzxHeader::from_bytes(&[82, 122]),
        Err(RzxError::Serialization(FormatError::UnexpectedEnd))
    ));
    let mut bytes = RzxHeader::new(EncryptionAlgorithm::NoEncryption, None, None, 0, 0, 0)
        .to_bytes()
        .unwrap();
    bytes[6] = 5;
    assert!(matches!(
        RzxHeader::from_bytes(&bytes),
        Err(RzxError::Serialization(FormatError::InvalidVariant(5)))
    ));
    bytes[6] = 0;
    bytes[10] = 2;
    assert!(matches!(
        RzxHeader::from_bytes(&bytes),
        Err(RzxError::Serialization(FormatError::InvalidOptionTag(2)))
    ));
    bytes[10] = 0;
    bytes[0] = b'X';
    assert!(matches!(RzxHeader::from_bytes(&bytes), Err(RzxError::InvalidMagic)));
}

#[test]
fn metadata_bytes_match_bincode_layout() {
    let mut metadata = ArchiveMetadata::new();
    metadata.created_at = Time::SinceEpoch(Timestamp { secs: 10, nanos: 20 });
    metadata.modified_at = Time::SinceEpoch(Timestamp { secs: 30, nanos: 40 });
    let mut entry = FileEntry::new("dir/a.txt");
    entry.original_size = 5;
    entry.compressed_size = 9;
    entry.checksum = 77;
    entry.modified = Some(Time::SinceEpoch(Timestamp { secs: 1, nanos: 2 }));
    entry.extended_attrs.push(("user.k".to_string(), vec![1, 2]));
    metadata.entries.push(entry);
    metadata.comment = Some("note".to_string());
    metadata.custom_fields.push(("key".to_string(), "value".to_string()));
    let bytes = metadata.to_bytes().unwrap();

    let entry_tuple = (
        "dir/a.txt".to_string(),
        5u64,
        9u64,
        2u32,
        0u32,
        0u64,
        77u32,
        0o644u32,
        None::<(u64, u32)>,
        Some((1u64, 2u32)),
        None::<(u64, u32)>,
        false,
        vec![("user.k".to_string(), vec![1u8, 2u8])],
    );
    let expected = bincode::serialize(&(
        vec![entry_tuple],
        Some("note".to_string()),
        "rzx-compressor v0.1.0".to_string(),
        (10u64, 20u32),
        (30u64, 40u32),
        vec![("key".to_string(), "value".to_string())],
    ))
    .unwrap();
    assert_eq!(bytes, expected);

    let back = ArchiveMetadata::from_bytes(&bytes).unwrap();
    assert_eq!(back.entries.len(), 1);
    assert_eq!(back.entries[0].path, "dir/a.txt");
    assert_eq!(back.entries[0].checksum, 77);
    assert_eq!(back.entries[0].modified, Some(Time::SinceEpoch(Timestamp { secs: 1, nanos: 2 })));
    assert_eq!(back.entries[0].extended_attrs, vec![("user.k".to_string(), vec![1, 2])]);
    assert_eq!(back.comment, Some("note".to_string()));
    assert_eq!(back.custom_fields, vec![("key".to_string(), "value".to_string())]);
    assert_eq!(back.created_at, Time::SinceEpoch(Timestamp { secs: 10, nanos: 20 }));
}

#[test]
fn times_before_the_epoch_have_no_encoding() {
    let mut metadata = ArchiveMetadata::new();
    metadata.created_at = Time::BeforeEpoch;
    assert!(matches!(
        metadata.to_bytes(),
        Err(RzxError::Serialization(FormatError::TimeBeforeEpoch))
    ));
}

#[test]
fn entry_checks_and_helpers() {
    let mut entry = FileEntry::new("notes.md");
    assert_eq!(entry.compression, CompressionAlgorithm::Lzma);
    assert!(entry.validate().is_ok());
    assert!(!entry.should_compress());
    entry.original_size = 5000;
    assert!(entry.should_compress());
    entry.optimize_compression();
    assert_eq!(entry.compression, CompressionAlgorithm::Deflate);
    entry.original_size = 2 * 1024 * 1024;
    entry.optimize_compression();
    assert_eq!(entry.compression, CompressionAlgorithm::Lzma);
    assert!(matches!(
        entry.validate(),
        Err(RzxError::CorruptedArchive(Corruption::ZeroCompressedSize))
    ));
    assert_eq!(entry.display_name(), "notes.md");

    let dir = FileEntry::new_directory("photos");
    assert_eq!(dir.display_name(), "photos/");
    assert_eq!(dir.compression, CompressionAlgorithm::NoCompression);
    let mut dir2 = FileEntry::new_directory("x/");
    assert_eq!(dir2.display_name(), "x/");
    dir2.original_size = 1;
    assert!(matches!(
        dir2.validate(),
        Err(RzxError::CorruptedArchive(Corruption::DirectoryWithSize))
    ));
    assert!(matches!(
        FileEntry::new("").validate(),
        Err(RzxError::CorruptedArchive(Corruption::EmptyPath))
    ));

    let mut img = FileEntry::new("a.PNG");
    assert_eq!(img.file_type, FileType::Image);
    img.original_size = 100_000;
    img.optimize_compression();
    assert_eq!(img.compression, CompressionAlgorithm::NoCompression);

    let mut f = FileEntry::new("tool");
    assert_eq!(f.file_type, FileType::Unknown);
    f.set_metadata_from_fs(&FsMetadata {
        is_dir: false,
        len: 42,
        mode: 0o600,
        created: None,
        modified: Some(Time::SinceEpoch(Timestamp { secs: 3, nanos: 4 })),
        accessed: None,
    })
    .unwrap();
    assert_eq!(f.original_size, 42);
    assert_eq!(f.permissions, 0o600);
    assert_eq!(f.modified, Some(Time::SinceEpoch(Timestamp { secs: 3, nanos: 4 })));
    assert_eq!(f.created, None);
}

#[test]
fn metadata_lookups_counts_and_totals() {
    let mut m = ArchiveMetadata::new();
    let mut a = FileEntry::new("b/file.txt");
    a.original_size = 10;
    a.compressed_size = 4;
    let mut b = FileEntry::new("a.bin");
    b.original_size = 20;
    b.compressed_size = 15;
    m.add_entry(a);
    m.add_entry(b);
    m.add_entry(FileEntry::new_directory("b"));
    assert_eq!(m.file_count(), 2);
    assert_eq!(m.directory_count(), 1);
    assert_eq!(m.total_original_size(), 30);
    assert_eq!(m.total_compressed_size(), 19);
    assert_eq!(m.checked_totals(), Some((30, 19)));
    assert_eq!(m.find_entry("b/./file.txt").unwrap().original_size, 10);
    assert_eq!(m.find_entry("b//file.txt/").unwrap().original_size, 10);
    assert!(m.find_entry("file.txt").is_none());
    m.find_entry_mut("a.bin").unwrap().checksum = 9;
    assert_eq!(m.find_entry("a.bin").unwrap().checksum, 9);

    m.sort_entries();
    let order: Vec<&str> = m.entries.iter().map(|e| e.path.as_str()).collect();
    assert_eq!(order, vec!["b", "a.bin", "b/file.txt"]);
    assert!(m.validate().is_ok());

    m.add_entry(FileEntry::new_directory("b/"));
    match m.validate() {
        Err(RzxError::CorruptedArchive(Corruption::DuplicatePath(p))) => assert_eq!(p, "b/"),
        _ => panic!("expected a duplicate path"),
    }
    let mut big = ArchiveMetadata::new();
    let mut x = FileEntry::new("x");
    x.original_size = u64::MAX;
    big.add_entry(x);
    big.add_entry(FileEntry::new("y"));
    big.entries[1].original_size = 1;
    assert_eq!(big.checked_totals(), None);
}

#[test]
fn optimized_choice_matches_selected_algorithm() {
    for (name, size) in [("a.txt", 50u64), ("a.txt", 5000), ("b.pdf", 2_000_000), ("c.so", 700), ("d.jpg", 9000), ("e", 150)] {
        let mut e = FileEntry::new(name);
        e.original_size = size;
        e.optimize_compression();
        assert_eq!(e.compression, select_compression_algorithm(e.file_type, size));
    }
}

#[test]
fn sorting_keeps_equal_entries_in_order() {
    let mut m = ArchiveMetadata::new();
    let mut first = FileEntry::new("z/a.txt");
    first.checksum = 1;
    let mut second = FileEntry::new("z//a.txt/");
    second.checksum = 2;
    m.add_entry(FileEntry::new("b.txt"));
    m.add_entry(first);
    m.add_entry(FileEntry::new_directory("z"));
    m.add_entry(second);
    m.sort_entries();
    let order: Vec<(&str, u32)> = m.entries.iter().map(|e| (e.path.as_str(), e.checksum)).collect();
    assert_eq!(order, vec![("z", 0), ("b.txt", 0), ("z/a.txt", 1), ("z//a.txt/", 2)]);
}

#[test]
fn metadata_times_are_the_given_ones() {
    let t0 = Time::SinceEpoch(Timestamp { secs: 10, nanos: 1 });
    let t1 = Time::SinceEpoch(Timestamp { secs: 20, nanos: 2 });
    let mut m = ArchiveMetadata::new_at(t0);
    assert_eq!(m.modified_at, t0);
    m.add_entry_at(FileEntry::new("test.txt"), t1);
    assert_eq!(m.created_at, t0);
    assert_eq!(m.modified_at, t1);
    assert_eq!(m.entries.len(), 1);
    let b = m.to_bytes().unwrap();
    let d = ArchiveMetadata::from_bytes(&b).unwrap();
    assert_eq!(d.created_at, t0);
    assert_eq!(d.modified_at, t1);
    assert_eq!(d.entries[0].path, "test.txt");
}

#[test]
fn extension_case_is_ignored() {
    assert_eq!(FileType::from_extension("TXT"), FileType::from_extension("txt"));
    assert_eq!(FileType::from_extension("JpEg"), FileType::from_extension("jpeg"));
    assert_eq!(FileType::from_extension(".txt"), FileType::Unknown);
}
