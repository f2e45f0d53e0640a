use rzx::rzx_core::{
    CompressionAlgorithm, EncryptionAlgorithm, FeatureFlags, FileType, RZX_MAGIC, RZX_VERSION,
};

#[test]
fn test_compression_algorithm_from_str() {
    assert_eq!(
        CompressionAlgorithm::from_str("none"),
        Some(CompressionAlgorithm::NoCompression)
    );
    assert_eq!(
        CompressionAlgorithm::from_str("deflate"),
        Some(CompressionAlgorithm::Deflate)
    );
    assert_eq!(
        CompressionAlgorithm::from_str("lzma"),
        Some(CompressionAlgorithm::Lzma)
    );
    assert_eq!(
        CompressionAlgorithm::from_str("zstd"),
        Some(CompressionAlgorithm::Zstd)
    );
    assert_eq!(CompressionAlgorithm::from_str("unknown"), None);
}

#[test]
fn test_compression_algorithm_as_str() {
    assert_eq!(CompressionAlgorithm::NoCompression.as_str(), "none");
    assert_eq!(CompressionAlgorithm::Deflate.as_str(), "deflate");
    assert_eq!(CompressionAlgorithm::Lzma.as_str(), "lzma");
    assert_eq!(CompressionAlgorithm::Zstd.as_str(), "zstd");
}

#[test]
fn test_encryption_algorithm_from_str() {
    assert_eq!(
        EncryptionAlgorithm::from_str("none"),
        Some(EncryptionAlgorithm::NoEncryption)
    );
    assert_eq!(
        EncryptionAlgorithm::from_str("aes256gcm"),
        Some(EncryptionAlgorithm::Aes256Gcm)
    );
    assert_eq!(EncryptionAlgorithm::from_str("unknown"), None);
}

#[test]
fn test_encryption_algorithm_as_str() {
    assert_eq!(EncryptionAlgorithm::NoEncryption.as_str(), "none");
    assert_eq!(EncryptionAlgorithm::Aes256Gcm.as_str(), "aes256gcm");
}

#[test]
fn test_encryption_algorithm_from_u8() {
    assert_eq!(
        EncryptionAlgorithm::from_u8(0),
        Some(EncryptionAlgorithm::NoEncryption)
    );
    assert_eq!(
        EncryptionAlgorithm::from_u8(1),
        Some(EncryptionAlgorithm::Aes256Gcm)
    );
    assert_eq!(EncryptionAlgorithm::from_u8(99), None);
}

#[test]
fn test_feature_flags() {
    let mut flags = FeatureFlags::none();
    assert!(!flags.has_flag(FeatureFlags::encrypted()));
    assert!(!flags.has_flag(FeatureFlags::compressed()));

    flags.set_flag(FeatureFlags::encrypted());
    assert!(flags.has_flag(FeatureFlags::encrypted()));
    assert!(!flags.has_flag(FeatureFlags::compressed()));

    flags.set_flag(FeatureFlags::compressed());
    assert!(flags.has_flag(FeatureFlags::encrypted()));
    assert!(flags.has_flag(FeatureFlags::compressed()));

    flags.clear_flag(FeatureFlags::encrypted());
    assert!(!flags.has_flag(FeatureFlags::encrypted()));
    assert!(flags.has_flag(FeatureFlags::compressed()));
}

#[test]
fn test_file_type_from_extension() {
    assert_eq!(FileType::from_extension("txt"), FileType::Text);
    assert_eq!(FileType::from_extension("JPG"), FileType::Image);
    assert_eq!(FileType::from_extension("mp3"), FileType::Audio);
    assert_eq!(FileType::from_extension("mkv"), FileType::Video);
    assert_eq!(FileType::from_extension("zip"), FileType::Archive);
    assert_eq!(FileType::from_extension("pdf"), FileType::Document);
    assert_eq!(FileType::from_extension("exe"), FileType::Binary);
    assert_eq!(FileType::from_extension("xyz"), FileType::Unknown);
}

#[test]
fn test_file_type_best_compression() {
    assert_eq!(FileType::Text.best_compression(), CompressionAlgorithm::Lzma);
    assert_eq!(FileType::Document.best_compression(), CompressionAlgorithm::Lzma);
    assert_eq!(FileType::Binary.best_compression(), CompressionAlgorithm::Zstd);
    assert_eq!(FileType::Image.best_compression(), CompressionAlgorithm::NoCompression);
    assert_eq!(FileType::Audio.best_compression(), CompressionAlgorithm::NoCompression);
    assert_eq!(FileType::Video.best_compression(), CompressionAlgorithm::NoCompression);
    assert_eq!(FileType::Archive.best_compression(), CompressionAlgorithm::NoCompression);
    assert_eq!(FileType::Unknown.best_compression(), CompressionAlgorithm::Deflate);
}

#[test]
fn test_rzx_constants() {
    assert_eq!(RZX_VERSION, 1);
    assert_eq!(RZX_MAGIC, [b'R', b'z', b'X', 0]);
}

#[test]
fn feature_flag_values_are_distinct_bits() {
    assert_eq!(FeatureFlags::none().0, 0);
    assert_eq!(FeatureFlags::encrypted().0, 1);
    assert_eq!(FeatureFlags::compressed().0, 2);
    assert_eq!(FeatureFlags::has_comment().0, 4);
    assert_eq!(FeatureFlags::extended_metadata().0, 8);
    let mut flags = FeatureFlags::has_comment();
    flags.set_flag(FeatureFlags::extended_metadata());
    flags.clear_flag(FeatureFlags::compressed());
    assert!(flags.has_flag(FeatureFlags::has_comment()));
    assert!(flags.has_flag(FeatureFlags::extended_metadata()));
    assert_eq!(flags.0, 12);
}

#[test]
fn algorithm_names_are_case_insensitive() {
    assert_eq!(
        CompressionAlgorithm::from_str("ZSTD"),
        Some(CompressionAlgorithm::Zstd)
    );
    assert_eq!(
        EncryptionAlgorithm::from_str("AES256GCM"),
        Some(EncryptionAlgorithm::Aes256Gcm)
    );
    for a in [
        CompressionAlgorithm::NoCompression,
        CompressionAlgorithm::Deflate,
        CompressionAlgorithm::Lzma,
        CompressionAlgorithm::Zstd,
    ] {
        assert_eq!(CompressionAlgorithm::from_str(a.as_str()), Some(a));
    }
    for e in [EncryptionAlgorithm::NoEncryption, EncryptionAlgorithm::Aes256Gcm] {
        assert_eq!(EncryptionAlgorithm::from_str(e.as_str()), Some(e));
    }
}

#[test]
fn file_types_of_extensions_in_any_case() {
    assert_eq!(FileType::from_extension("Md"), FileType::Text);
    assert_eq!(FileType::from_extension("DOCX"), FileType::Document);
    assert_eq!(FileType::from_extension("so"), FileType::Binary);
    assert_eq!(FileType::from_extension("7z"), FileType::Archive);
    assert_eq!(FileType::from_extension(""), FileType::Unknown);
}
