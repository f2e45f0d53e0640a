//! Core types of the RZX format.
pub mod checksum;
pub mod codec;
pub mod compression;
pub mod encryption;
pub mod header;
pub mod metadata;
pub mod metadata_format;
pub mod path;
pub mod text;

use vstd::prelude::*;
use crate::rzx_core::text::{all_ascii, ascii_lower, lowercase, str_eq, to_lowercase};
use crate::rzx_core::codec::FormatError;

verus! {

/// RZX format version.
pub const RZX_VERSION: u16 = 1;

/// Magic bytes of the RZX format: "RzX\0".
pub const RZX_MAGIC: [u8; 4] = [82u8, 122u8, 88u8, 0u8];

/// Compression algorithms supported by RZX.
#[derive(Debug, Clone, Copy, PartialEq, Eq, Structural)]
pub enum CompressionAlgorithm {
    NoCompression,
    Deflate,
    Lzma,
    Zstd,
}

/// The algorithm named by an already lower-cased string.
pub open spec fn compression_from_lowercase(s: Seq<char>) -> Option<CompressionAlgorithm> {
    if s == "none"@ {
        Some(CompressionAlgorithm::NoCompression)
    } else if s == "deflate"@ {
        Some(CompressionAlgorithm::Deflate)
    } else if s == "lzma"@ {
        Some(CompressionAlgorithm::Lzma)
    } else if s == "zstd"@ {
        Some(CompressionAlgorithm::Zstd)
    } else {
        None
    }
}

/// The canonical name of a compression algorithm.
pub open spec fn compression_name(a: CompressionAlgorithm) -> Seq<char> {
    match a {
        CompressionAlgorithm::NoCompression => "none"@,
        CompressionAlgorithm::Deflate => "deflate"@,
        CompressionAlgorithm::Lzma => "lzma"@,
        CompressionAlgorithm::Zstd => "zstd"@,
    }
}

impl CompressionAlgorithm {
    /// Looks up an algorithm by a name that is already in lower case.
    pub fn from_lowercase(s: &str) -> (res: Option<Self>)
        ensures
            res == compression_from_lowercase(s@),
    {
        if str_eq(s, "none") {
            Some(CompressionAlgorithm::NoCompression)
        } else if str_eq(s, "deflate") {
            Some(CompressionAlgorithm::Deflate)
        } else if str_eq(s, "lzma") {
            Some(CompressionAlgorithm::Lzma)
        } else if str_eq(s, "zstd") {
            Some(CompressionAlgorithm::Zstd)
        } else {
            None
        }
    }

    /// Looks up an algorithm by name, ignoring case.
    pub fn from_str(s: &str) -> (res: Option<Self>)
        ensures
            res == compression_from_lowercase(lowercase(s@)),
            all_ascii(s@) ==> res == compression_from_lowercase(ascii_lower(s@)),
    {
        let lower = to_lowercase(s);
        Self::from_lowercase(lower.as_str())
    }

    /// The canonical (lower-case) name of the algorithm.
    pub fn as_str(&self) -> (s: &'static str)
        ensures
            s@ == compression_name(*self),
    {
        match self {
            CompressionAlgorithm::NoCompression => "none",
            CompressionAlgorithm::Deflate => "deflate",
            CompressionAlgorithm::Lzma => "lzma",
            CompressionAlgorithm::Zstd => "zstd",
        }
    }
}

/// Encryption algorithms supported by RZX.
#[derive(Debug, Clone, Copy, PartialEq, Eq, Structural)]
pub enum EncryptionAlgorithm {
    NoEncryption,
    Aes256Gcm,
}

/// The encryption algorithm named by an already lower-cased string.
pub open spec fn encryption_from_lowercase(s: Seq<char>) -> Option<EncryptionAlgorithm> {
    if s == "none"@ {
        Some(EncryptionAlgorithm::NoEncryption)
    } else if s == "aes256gcm"@ {
        Some(EncryptionAlgorithm::Aes256Gcm)
    } else {
        None
    }
}

/// The canonical name of an encryption algorithm.
pub open spec fn encryption_name(a: EncryptionAlgorithm) -> Seq<char> {
    match a {
        EncryptionAlgorithm::NoEncryption => "none"@,
        EncryptionAlgorithm::Aes256Gcm => "aes256gcm"@,
    }
}

/// The encryption algorithm with the given numeric code.
pub open spec fn encryption_from_code(v: u8) -> Option<EncryptionAlgorithm> {
    if v == 0 {
        Some(EncryptionAlgorithm::NoEncryption)
    } else if v == 1 {
        Some(EncryptionAlgorithm::Aes256Gcm)
    } else {
        None
    }
}

impl EncryptionAlgorithm {
    /// Looks up an algorithm by a name that is already in lower case.
    pub fn from_lowercase(s: &str) -> (res: Option<Self>)
        ensures
            res == encryption_from_lowercase(s@),
    {
        if str_eq(s, "none") {
            Some(EncryptionAlgorithm::NoEncryption)
        } else if str_eq(s, "aes256gcm") {
            Some(EncryptionAlgorithm::Aes256Gcm)
        } else {
            None
        }
    }

    /// Looks up an algorithm by name, ignoring case.
    pub fn from_str(s: &str) -> (res: Option<Self>)
        ensures
            res == encryption_from_lowercase(lowercase(s@)),
            all_ascii(s@) ==> res == encryption_from_lowercase(ascii_lower(s@)),
    {
        let lower = to_lowercase(s);
        Self::from_lowercase(lower.as_str())
    }

    /// The canonical (lower-case) name of the algorithm.
    pub fn as_str(&self) -> (s: &'static str)
        ensures
            s@ == encryption_name(*self),
    {
        match self {
            EncryptionAlgorithm::NoEncryption => "none",
            EncryptionAlgorithm::Aes256Gcm => "aes256gcm",
        }
    }

    /// The algorithm with the given numeric code.
    pub fn from_u8(v: u8) -> (res: Option<Self>)
        ensures
            res == encryption_from_code(v),
    {
        if v == 0 {
            Some(EncryptionAlgorithm::NoEncryption)
        } else if v == 1 {
            Some(EncryptionAlgorithm::Aes256Gcm)
        } else {
            None
        }
    }
}

/// Every algorithm's canonical name names it again, and every encryption
/// algorithm's numeric code gives it back.
pub proof fn lemma_names_roundtrip(c: CompressionAlgorithm, e: EncryptionAlgorithm)
    ensures
        compression_from_lowercase(compression_name(c)) == Some(c),
        encryption_from_lowercase(encryption_name(e)) == Some(e),
        encryption_from_code(match e {
            EncryptionAlgorithm::NoEncryption => 0u8,
            EncryptionAlgorithm::Aes256Gcm => 1u8,
        }) == Some(e),
{
    reveal_strlit("none");
    reveal_strlit("deflate");
    reveal_strlit("lzma");
    reveal_strlit("zstd");
    reveal_strlit("aes256gcm");
    assert("none"@[0] == 'n' && "deflate"@[0] == 'd' && "lzma"@[0] == 'l' && "zstd"@[0] == 'z');
    assert("aes256gcm"@[0] == 'a');
}

/// The names of the algorithms: "none", "deflate", "lzma" and "zstd" for
/// compression, "none" and "aes256gcm" for encryption; the encryption codes
/// are 0 for none and 1 for AES-256-GCM, and no other code is one.
pub proof fn lemma_algorithm_names(v: u8)
    ensures
        compression_from_lowercase("none"@) == Some(CompressionAlgorithm::NoCompression),
        compression_from_lowercase("deflate"@) == Some(CompressionAlgorithm::Deflate),
        compression_from_lowercase("lzma"@) == Some(CompressionAlgorithm::Lzma),
        compression_from_lowercase("zstd"@) == Some(CompressionAlgorithm::Zstd),
        compression_name(CompressionAlgorithm::NoCompression) == "none"@,
        compression_name(CompressionAlgorithm::Deflate) == "deflate"@,
        compression_name(CompressionAlgorithm::Lzma) == "lzma"@,
        compression_name(CompressionAlgorithm::Zstd) == "zstd"@,
        encryption_from_lowercase("none"@) == Some(EncryptionAlgorithm::NoEncryption),
        encryption_from_lowercase("aes256gcm"@) == Some(EncryptionAlgorithm::Aes256Gcm),
        encryption_name(EncryptionAlgorithm::NoEncryption) == "none"@,
        encryption_name(EncryptionAlgorithm::Aes256Gcm) == "aes256gcm"@,
        encryption_from_code(0) == Some(EncryptionAlgorithm::NoEncryption),
        encryption_from_code(1) == Some(EncryptionAlgorithm::Aes256Gcm),
        v > 1 ==> encryption_from_code(v) is None,
{
    reveal_strlit("none");
    reveal_strlit("deflate");
    reveal_strlit("lzma");
    reveal_strlit("zstd");
    reveal_strlit("aes256gcm");
    assert("none"@[0] == 'n' && "deflate"@[0] == 'd' && "lzma"@[0] == 'l' && "zstd"@[0] == 'z');
}

/// The magic bytes are `R`, `z`, `X` (0x52, 0x7A, 0x58) and a zero byte, and the format version
/// is 1.
pub proof fn lemma_magic_and_version()
    ensures
        rzx_magic() == seq![0x52u8, 0x7Au8, 0x58u8, 0u8],
        RZX_VERSION == 1,
{
}

/// The magic bytes as a sequence.
pub open spec fn rzx_magic() -> Seq<u8> {
    seq![82u8, 122u8, 88u8, 0u8]
}

/// What makes an archive's contents inconsistent.
#[derive(Debug, Clone)]
pub enum Corruption {
    /// An encrypted archive whose header lacks its salt or nonce.
    MissingSaltOrNonce,
    /// A file entry with an empty path.
    EmptyPath,
    /// A directory entry with a non-zero size.
    DirectoryWithSize,
    /// A non-empty file whose stored data is empty.
    ZeroCompressedSize,
    /// Two entries with the same path; the path of the second.
    DuplicatePath(String),
}

/// Errors of RZX operations.
#[derive(Debug, Clone)]
pub enum RzxError {
    InvalidMagic,
    UnsupportedVersion(u16),
    UnsupportedCompression(u8),
    CorruptedArchive(Corruption),
    FileNotFound(String),
    /// A compression stream failed.
    Io,
    /// A header or metadata block is not a valid encoding, or a value has none.
    Serialization(FormatError),
    /// An LZMA stream failed to decode.
    Lzma,
    ChecksumMismatch,
    EncryptionError,
    DecryptionError,
    InvalidPassword,
    /// Sizes that do not fit the format's 64-bit offsets and lengths.
    SizeOverflow,
}

pub type RzxResult<T> = Result<T, RzxError>;

/// Feature flags of the RZX format: a bit set in one byte.
#[derive(Debug, Clone, Copy, PartialEq, Eq, Structural)]
pub struct FeatureFlags(pub u8);

impl FeatureFlags {
    /// No flag.
    pub fn none() -> (f: Self)
        ensures
            f.0 == 0,
    {
        FeatureFlags(0)
    }

    /// The archive is encrypted.
    pub fn encrypted() -> (f: Self)
        ensures
            f.0 == 1,
    {
        FeatureFlags(1)
    }

    /// The archive is compressed.
    pub fn compressed() -> (f: Self)
        ensures
            f.0 == 2,
    {
        FeatureFlags(2)
    }

    /// The archive has a comment.
    pub fn has_comment() -> (f: Self)
        ensures
            f.0 == 4,
    {
        FeatureFlags(4)
    }

    /// The archive has extended metadata.
    pub fn extended_metadata() -> (f: Self)
        ensures
            f.0 == 8,
    {
        FeatureFlags(8)
    }

    /// Whether any bit of `flag` is set.
    pub fn has_flag(&self, flag: Self) -> (res: bool)
        ensures
            res == (self.0 & flag.0 != 0),
    {
        (self.0 & flag.0) != 0
    }

    /// Sets the bits of `flag`.
    pub fn set_flag(&mut self, flag: Self)
        ensures
            final(self).0 == old(self).0 | flag.0,
    {
        self.0 = self.0 | flag.0;
    }

    /// Clears the bits of `flag`.
    pub fn clear_flag(&mut self, flag: Self)
        ensures
            final(self).0 == old(self).0 & !flag.0,
    {
        self.0 = self.0 & !flag.0;
    }
}

/// After `set_flag(f)`, `has_flag(f)` holds for every non-empty `f`; after
/// `clear_flag(f)` it does not hold. Neither changes whether a flag that
/// shares no bit with `f` is set.
pub proof fn lemma_flag_laws(flags: u8, f: u8, g: u8)
    ensures
        f != 0 ==> ((flags | f) & f) != 0,
        ((flags & !f) & f) == 0,
        (f & g) == 0 ==> (((flags | f) & g) != 0 <==> (flags & g) != 0),
        (f & g) == 0 ==> (((flags & !f) & g) != 0 <==> (flags & g) != 0),
{
    assert(f != 0 ==> ((flags | f) & f) != 0) by (bit_vector);
    assert(((flags & !f) & f) == 0) by (bit_vector);
    assert((f & g) == 0 ==> (((flags | f) & g) != 0 <==> (flags & g) != 0)) by (bit_vector);
    assert((f & g) == 0 ==> (((flags & !f) & g) != 0 <==> (flags & g) != 0)) by (bit_vector);
}

/// File type classification for choosing a compression algorithm.
#[derive(Debug, Clone, Copy, PartialEq, Eq, Structural)]
pub enum FileType {
    Text,
    Binary,
    Image,
    Audio,
    Video,
    Archive,
    Document,
    Unknown,
}

/// The file type of an already lower-cased extension.
pub open spec fn file_type_from_lowercase(e: Seq<char>) -> FileType {
    if e == "txt"@ || e == "md"@ || e == "json"@ || e == "xml"@ || e == "html"@ || e == "csv"@
        || e == "log"@ {
        FileType::Text
    } else if e == "jpg"@ || e == "jpeg"@ || e == "png"@ || e == "gif"@ || e == "bmp"@ || e
        == "webp"@ {
        FileType::Image
    } else if e == "mp3"@ || e == "wav"@ || e == "flac"@ || e == "ogg"@ || e == "m4a"@ {
        FileType::Audio
    } else if e == "mp4"@ || e == "avi"@ || e == "mkv"@ || e == "mov"@ || e == "webm"@ {
        FileType::Video
    } else if e == "zip"@ || e == "rar"@ || e == "7z"@ || e == "tar"@ || e == "gz"@ {
        FileType::Archive
    } else if e == "pdf"@ || e == "doc"@ || e == "docx"@ || e == "ppt"@ || e == "pptx"@ || e
        == "xls"@ || e == "xlsx"@ {
        FileType::Document
    } else if e == "exe"@ || e == "dll"@ || e == "so"@ || e == "dylib"@ {
        FileType::Binary
    } else {
        FileType::Unknown
    }
}

/// The extensions of text files: txt, md, json, xml, html, csv, log.
pub proof fn lemma_text_extensions()
    ensures
        file_type_from_lowercase("txt"@) == FileType::Text,
        file_type_from_lowercase("md"@) == FileType::Text,
        file_type_from_lowercase("json"@) == FileType::Text,
        file_type_from_lowercase("xml"@) == FileType::Text,
        file_type_from_lowercase("html"@) == FileType::Text,
        file_type_from_lowercase("csv"@) == FileType::Text,
        file_type_from_lowercase("log"@) == FileType::Text,
{
    reveal_strlit("txt");
    reveal_strlit("md");
    reveal_strlit("json");
    reveal_strlit("xml");
    reveal_strlit("html");
    reveal_strlit("csv");
    reveal_strlit("log");
}

/// The extensions of images: jpg, jpeg, png, gif, bmp, webp.
pub proof fn lemma_image_extensions()
    ensures
        file_type_from_lowercase("jpg"@) == FileType::Image,
        file_type_from_lowercase("jpeg"@) == FileType::Image,
        file_type_from_lowercase("png"@) == FileType::Image,
        file_type_from_lowercase("gif"@) == FileType::Image,
        file_type_from_lowercase("bmp"@) == FileType::Image,
        file_type_from_lowercase("webp"@) == FileType::Image,
{
    reveal_strlit("jpg");
    reveal_strlit("jpeg");
    reveal_strlit("png");
    reveal_strlit("gif");
    reveal_strlit("bmp");
    reveal_strlit("webp");
    reveal_strlit("txt");
    reveal_strlit("md");
    reveal_strlit("json");
    reveal_strlit("xml");
    reveal_strlit("html");
    reveal_strlit("csv");
    reveal_strlit("log");
    assert("jpg"@[0] != "txt"@[0]);
    assert("jpg"@.len() != "md"@.len());
    assert("jpg"@.len() != "json"@.len());
    assert("jpg"@[0] != "xml"@[0]);
    assert("jpg"@.len() != "html"@.len());
    assert("jpg"@[0] != "csv"@[0]);
    assert("jpg"@[0] != "log"@[0]);
    assert("jpeg"@.len() != "txt"@.len());
    assert("jpeg"@.len() != "md"@.len());
    assert("jpeg"@[1] != "json"@[1]);
    assert("jpeg"@.len() != "xml"@.len());
    assert("jpeg"@[0] != "html"@[0]);
    assert("jpeg"@.len() != "csv"@.len());
    assert("jpeg"@.len() != "log"@.len());
    assert("png"@[0] != "txt"@[0]);
    assert("png"@.len() != "md"@.len());
    assert("png"@.len() != "json"@.len());
    assert("png"@[0] != "xml"@[0]);
    assert("png"@.len() != "html"@.len());
    assert("png"@[0] != "csv"@[0]);
    assert("png"@[0] != "log"@[0]);
    assert("gif"@[0] != "txt"@[0]);
    assert("gif"@.len() != "md"@.len());
    assert("gif"@.len() != "json"@.len());
    assert("gif"@[0] != "xml"@[0]);
    assert("gif"@.len() != "html"@.len());
    assert("gif"@[0] != "csv"@[0]);
    assert("gif"@[0] != "log"@[0]);
    assert("bmp"@[0] != "txt"@[0]);
    assert("bmp"@.len() != "md"@.len());
    assert("bmp"@.len() != "json"@.len());
    assert("bmp"@[0] != "xml"@[0]);
    assert("bmp"@.len() != "html"@.len());
    assert("bmp"@[0] != "csv"@[0]);
    assert("bmp"@[0] != "log"@[0]);
    assert("webp"@.len() != "txt"@.len());
    assert("webp"@.len() != "md"@.len());
    assert("webp"@[0] != "json"@[0]);
    assert("webp"@.len() != "xml"@.len());
    assert("webp"@[0] != "html"@[0]);
    assert("webp"@.len() != "csv"@.len());
    assert("webp"@.len() != "log"@.len());
}

/// The extensions of audio: mp3, wav, flac, ogg, m4a.
pub proof fn lemma_audio_extensions()
    ensures
        file_type_from_lowercase("mp3"@) == FileType::Audio,
        file_type_from_lowercase("wav"@) == FileType::Audio,
        file_type_from_lowercase("flac"@) == FileType::Audio,
        file_type_from_lowercase("ogg"@) == FileType::Audio,
        file_type_from_lowercase("m4a"@) == FileType::Audio,
{
    reveal_strlit("mp3");
    reveal_strlit("wav");
    reveal_strlit("flac");
    reveal_strlit("ogg");
    reveal_strlit("m4a");
    reveal_strlit("txt");
    reveal_strlit("md");
    reveal_strlit("json");
    reveal_strlit("xml");
    reveal_strlit("html");
    reveal_strlit("csv");
    reveal_strlit("log");
    reveal_strlit("jpg");
    reveal_strlit("jpeg");
    reveal_strlit("png");
    reveal_strlit("gif");
    reveal_strlit("bmp");
    reveal_strlit("webp");
    assert("mp3"@[0] != "txt"@[0]);
    assert("mp3"@.len() != "md"@.len());
    assert("mp3"@.len() != "json"@.len());
    assert("mp3"@[0] != "xml"@[0]);
    assert("mp3"@.len() != "html"@.len());
    assert("mp3"@[0] != "csv"@[0]);
    assert("mp3"@[0] != "log"@[0]);
    assert("mp3"@[0] != "jpg"@[0]);
    assert("mp3"@.len() != "jpeg"@.len());
    assert("mp3"@[0] != "png"@[0]);
    assert("mp3"@[0] != "gif"@[0]);
    assert("mp3"@[0] != "bmp"@[0]);
    assert("mp3"@.len() != "webp"@.len());
    assert("wav"@[0] != "txt"@[0]);
    assert("wav"@.len() != "md"@.len());
    assert("wav"@.len() != "json"@.len());
    assert("wav"@[0] != "xml"@[0]);
    assert("wav"@.len() != "html"@.len());
    assert("wav"@[0] != "csv"@[0]);
    assert("wav"@[0] != "log"@[0]);
    assert("wav"@[0] != "jpg"@[0]);
    assert("wav"@.len() != "jpeg"@.len());
    assert("wav"@[0] != "png"@[0]);
    assert("wav"@[0] != "gif"@[0]);
    assert("wav"@[0] != "bmp"@[0]);
    assert("wav"@.len() != "webp"@.len());
    assert("flac"@.len() != "txt"@.len());
    assert("flac"@.len() != "md"@.len());
    assert("flac"@[0] != "json"@[0]);
    assert("flac"@.len() != "xml"@.len());
    assert("flac"@[0] != "html"@[0]);
    assert("flac"@.len() != "csv"@.len());
    assert("flac"@.len() != "log"@.len());
    assert("flac"@.len() != "jpg"@.len());
    assert("flac"@[0] != "jpeg"@[0]);
    assert("flac"@.len() != "png"@.len());
    assert("flac"@.len() != "gif"@.len());
    assert("flac"@.len() != "bmp"@.len());
    assert("flac"@[0] != "webp"@[0]);
    assert("ogg"@[0] != "txt"@[0]);
    assert("ogg"@.len() != "md"@.len());
    assert("ogg"@.len() != "json"@.len());
    assert("ogg"@[0] != "xml"@[0]);
    assert("ogg"@.len() != "html"@.len());
    assert("ogg"@[0] != "csv"@[0]);
    assert("ogg"@[0] != "log"@[0]);
    assert("ogg"@[0] != "jpg"@[0]);
    assert("ogg"@.len() != "jpeg"@.len());
    assert("ogg"@[0] != "png"@[0]);
    assert("ogg"@[0] != "gif"@[0]);
    assert("ogg"@[0] != "bmp"@[0]);
    assert("ogg"@.len() != "webp"@.len());
    assert("m4a"@[0] != "txt"@[0]);
    assert("m4a"@.len() != "md"@.len());
    assert("m4a"@.len() != "json"@.len());
    assert("m4a"@[0] != "xml"@[0]);
    assert("m4a"@.len() != "html"@.len());
    assert("m4a"@[0] != "csv"@[0]);
    assert("m4a"@[0] != "log"@[0]);
    assert("m4a"@[0] != "jpg"@[0]);
    assert("m4a"@.len() != "jpeg"@.len());
    assert("m4a"@[0] != "png"@[0]);
    assert("m4a"@[0] != "gif"@[0]);
    assert("m4a"@[0] != "bmp"@[0]);
    assert("m4a"@.len() != "webp"@.len());
}

/// The extensions of video: mp4, avi, mkv, mov, webm.
pub proof fn lemma_video_extensions()
    ensures
        file_type_from_lowercase("mp4"@) == FileType::Video,
        file_type_from_lowercase("avi"@) == FileType::Video,
        file_type_from_lowercase("mkv"@) == FileType::Video,
        file_type_from_lowercase("mov"@) == FileType::Video,
        file_type_from_lowercase("webm"@) == FileType::Video,
{
    reveal_strlit("mp4");
    reveal_strlit("avi");
    reveal_strlit("mkv");
    reveal_strlit("mov");
    reveal_strlit("webm");
    reveal_strlit("txt");
    reveal_strlit("md");
    reveal_strlit("json");
    reveal_strlit("xml");
    reveal_strlit("html");
    reveal_strlit("csv");
    reveal_strlit("log");
    reveal_strlit("jpg");
    reveal_strlit("jpeg");
    reveal_strlit("png");
    reveal_strlit("gif");
    reveal_strlit("bmp");
    reveal_strlit("webp");
    reveal_strlit("mp3");
    reveal_strlit("wav");
    reveal_strlit("flac");
    reveal_strlit("ogg");
    reveal_strlit("m4a");
    assert("mp4"@[0] != "txt"@[0]);
    assert("mp4"@.len() != "md"@.len());
    assert("mp4"@.len() != "json"@.len());
    assert("mp4"@[0] != "xml"@[0]);
    assert("mp4"@.len() != "html"@.len());
    assert("mp4"@[0] != "csv"@[0]);
    assert("mp4"@[0] != "log"@[0]);
    assert("mp4"@[0] != "jpg"@[0]);
    assert("mp4"@.len() != "jpeg"@.len());
    assert("mp4"@[0] != "png"@[0]);
    assert("mp4"@[0] != "gif"@[0]);
    assert("mp4"@[0] != "bmp"@[0]);
    assert("mp4"@.len() != "webp"@.len());
    assert("mp4"@[2] != "mp3"@[2]);
    assert("mp4"@[0] != "wav"@[0]);
    assert("mp4"@.len() != "flac"@.len());
    assert("mp4"@[0] != "ogg"@[0]);
    assert("mp4"@[1] != "m4a"@[1]);
    assert("avi"@[0] != "txt"@[0]);
    assert("avi"@.len() != "md"@.len());
    assert("avi"@.len() != "json"@.len());
    assert("avi"@[0] != "xml"@[0]);
    assert("avi"@.len() != "html"@.len());
    assert("avi"@[0] != "csv"@[0]);
    assert("avi"@[0] != "log"@[0]);
    assert("avi"@[0] != "jpg"@[0]);
    assert("avi"@.len() != "jpeg"@.len());
    assert("avi"@[0] != "png"@[0]);
    assert("avi"@[0] != "gif"@[0]);
    assert("avi"@[0] != "bmp"@[0]);
    assert("avi"@.len() != "webp"@.len());
    assert("avi"@[0] != "mp3"@[0]);
    assert("avi"@[0] != "wav"@[0]);
    assert("avi"@.len() != "flac"@.len());
    assert("avi"@[0] != "ogg"@[0]);
    assert("avi"@[0] != "m4a"@[0]);
    assert("mkv"@[0] != "txt"@[0]);
    assert("mkv"@.len() != "md"@.len());
    assert("mkv"@.len() != "json"@.len());
    assert("mkv"@[0] != "xml"@[0]);
    assert("mkv"@.len() != "html"@.len());
    assert("mkv"@[0] != "csv"@[0]);
    assert("mkv"@[0] != "log"@[0]);
    assert("mkv"@[0] != "jpg"@[0]);
    assert("mkv"@.len() != "jpeg"@.len());
    assert("mkv"@[0] != "png"@[0]);
    assert("mkv"@[0] != "gif"@[0]);
    assert("mkv"@[0] != "bmp"@[0]);
    assert("mkv"@.len() != "webp"@.len());
    assert("mkv"@[1] != "mp3"@[1]);
    assert("mkv"@[0] != "wav"@[0]);
    assert("mkv"@.len() != "flac"@.len());
    assert("mkv"@[0] != "ogg"@[0]);
    assert("mkv"@[1] != "m4a"@[1]);
    assert("mov"@[0] != "txt"@[0]);
    assert("mov"@.len() != "md"@.len());
    assert("mov"@.len() != "json"@.len());
    assert("mov"@[0] != "xml"@[0]);
    assert("mov"@.len() != "html"@.len());
    assert("mov"@[0] != "csv"@[0]);
    assert("mov"@[0] != "log"@[0]);
    assert("mov"@[0] != "jpg"@[0]);
    assert("mov"@.len() != "jpeg"@.len());
    assert("mov"@[0] != "png"@[0]);
    assert("mov"@[0] != "gif"@[0]);
    assert("mov"@[0] != "bmp"@[0]);
    assert("mov"@.len() != "webp"@.len());
    assert("mov"@[1] != "mp3"@[1]);
    assert("mov"@[0] != "wav"@[0]);
    assert("mov"@.len() != "flac"@.len());
    assert("mov"@[0] != "ogg"@[0]);
    assert("mov"@[1] != "m4a"@[1]);
    assert("webm"@.len() != "txt"@.len());
    assert("webm"@.len() != "md"@.len());
    assert("webm"@[0] != "json"@[0]);
    assert("webm"@.len() != "xml"@.len());
    assert("webm"@[0] != "html"@[0]);
    assert("webm"@.len() != "csv"@.len());
    assert("webm"@.len() != "log"@.len());
    assert("webm"@.len() != "jpg"@.len());
    assert("webm"@[0] != "jpeg"@[0]);
    assert("webm"@.len() != "png"@.len());
    assert("webm"@.len() != "gif"@.len());
    assert("webm"@.len() != "bmp"@.len());
    assert("webm"@[3] != "webp"@[3]);
    assert("webm"@.len() != "mp3"@.len());
    assert("webm"@.len() != "wav"@.len());
    assert("webm"@[0] != "flac"@[0]);
    assert("webm"@.len() != "ogg"@.len());
    assert("webm"@.len() != "m4a"@.len());
}

/// The extensions of archives: zip, rar, 7z, tar, gz.
pub proof fn lemma_archive_extensions()
    ensures
        file_type_from_lowercase("zip"@) == FileType::Archive,
        file_type_from_lowercase("rar"@) == FileType::Archive,
        file_type_from_lowercase("7z"@) == FileType::Archive,
        file_type_from_lowercase("tar"@) == FileType::Archive,
        file_type_from_lowercase("gz"@) == FileType::Archive,
{
    reveal_strlit("zip");
    reveal_strlit("rar");
    reveal_strlit("7z");
    reveal_strlit("tar");
    reveal_strlit("gz");
    reveal_strlit("txt");
    reveal_strlit("md");
    reveal_strlit("json");
    reveal_strlit("xml");
    reveal_strlit("html");
    reveal_strlit("csv");
    reveal_strlit("log");
    reveal_strlit("jpg");
    reveal_strlit("jpeg");
    reveal_strlit("png");
    reveal_strlit("gif");
    reveal_strlit("bmp");
    reveal_strlit("webp");
    reveal_strlit("mp3");
    reveal_strlit("wav");
    reveal_strlit("flac");
    reveal_strlit("ogg");
    reveal_strlit("m4a");
    reveal_strlit("mp4");
    reveal_strlit("avi");
    reveal_strlit("mkv");
    reveal_strlit("mov");
    reveal_strlit("webm");
    assert("zip"@[0] != "txt"@[0]);
    assert("zip"@.len() != "md"@.len());
    assert("zip"@.len() != "json"@.len());
    assert("zip"@[0] != "xml"@[0]);
    assert("zip"@.len() != "html"@.len());
    assert("zip"@[0] != "csv"@[0]);
    assert("zip"@[0] != "log"@[0]);
    assert("zip"@[0] != "jpg"@[0]);
    assert("zip"@.len() != "jpeg"@.len());
    assert("zip"@[0] != "png"@[0]);
    assert("zip"@[0] != "gif"@[0]);
    assert("zip"@[0] != "bmp"@[0]);
    assert("zip"@.len() != "webp"@.len());
    assert("zip"@[0] != "mp3"@[0]);
    assert("zip"@[0] != "wav"@[0]);
    assert("zip"@.len() != "flac"@.len());
    assert("zip"@[0] != "ogg"@[0]);
    assert("zip"@[0] != "m4a"@[0]);
    assert("zip"@[0] != "mp4"@[0]);
    assert("zip"@[0] != "avi"@[0]);
    assert("zip"@[0] != "mkv"@[0]);
    assert("zip"@[0] != "mov"@[0]);
    assert("zip"@.len() != "webm"@.len());
    assert("rar"@[0] != "txt"@[0]);
    assert("rar"@.len() != "md"@.len());
    assert("rar"@.len() != "json"@.len());
    assert("rar"@[0] != "xml"@[0]);
    assert("rar"@.len() != "html"@.len());
    assert("rar"@[0] != "csv"@[0]);
    assert("rar"@[0] != "log"@[0]);
    assert("rar"@[0] != "jpg"@[0]);
    assert("rar"@.len() != "jpeg"@.len());
    assert("rar"@[0] != "png"@[0]);
    assert("rar"@[0] != "gif"@[0]);
    assert("rar"@[0] != "bmp"@[0]);
    assert("rar"@.len() != "webp"@.len());
    assert("rar"@[0] != "mp3"@[0]);
    assert("rar"@[0] != "wav"@[0]);
    assert("rar"@.len() != "flac"@.len());
    assert("rar"@[0] != "ogg"@[0]);
    assert("rar"@[0] != "m4a"@[0]);
    assert("rar"@[0] != "mp4"@[0]);
    assert("rar"@[0] != "avi"@[0]);
    assert("rar"@[0] != "mkv"@[0]);
    assert("rar"@[0] != "mov"@[0]);
    assert("rar"@.len() != "webm"@.len());
    assert("7z"@.len() != "txt"@.len());
    assert("7z"@[0] != "md"@[0]);
    assert("7z"@.len() != "json"@.len());
    assert("7z"@.len() != "xml"@.len());
    assert("7z"@.len() != "html"@.len());
    assert("7z"@.len() != "csv"@.len());
    assert("7z"@.len() != "log"@.len());
    assert("7z"@.len() != "jpg"@.len());
    assert("7z"@.len() != "jpeg"@.len());
    assert("7z"@.len() != "png"@.len());
    assert("7z"@.len() != "gif"@.len());
    assert("7z"@.len() != "bmp"@.len());
    assert("7z"@.len() != "webp"@.len());
    assert("7z"@.len() != "mp3"@.len());
    assert("7z"@.len() != "wav"@.len());
    assert("7z"@.len() != "flac"@.len());
    assert("7z"@.len() != "ogg"@.len());
    assert("7z"@.len() != "m4a"@.len());
    assert("7z"@.len() != "mp4"@.len());
    assert("7z"@.len() != "avi"@.len());
    assert("7z"@.len() != "mkv"@.len());
    assert("7z"@.len() != "mov"@.len());
    assert("7z"@.len() != "webm"@.len());
    assert("tar"@[1] != "txt"@[1]);
    assert("tar"@.len() != "md"@.len());
    assert("tar"@.len() != "json"@.len());
    assert("tar"@[0] != "xml"@[0]);
    assert("tar"@.len() != "html"@.len());
    assert("tar"@[0] != "csv"@[0]);
    assert("tar"@[0] != "log"@[0]);
    assert("tar"@[0] != "jpg"@[0]);
    assert("tar"@.len() != "jpeg"@.len());
    assert("tar"@[0] != "png"@[0]);
    assert("tar"@[0] != "gif"@[0]);
    assert("tar"@[0] != "bmp"@[0]);
    assert("tar"@.len() != "webp"@.len());
    assert("tar"@[0] != "mp3"@[0]);
    assert("tar"@[0] != "wav"@[0]);
    assert("tar"@.len() != "flac"@.len());
    assert("tar"@[0] != "ogg"@[0]);
    assert("tar"@[0] != "m4a"@[0]);
    assert("tar"@[0] != "mp4"@[0]);
    assert("tar"@[0] != "avi"@[0]);
    assert("tar"@[0] != "mkv"@[0]);
    assert("tar"@[0] != "mov"@[0]);
    assert("tar"@.len() != "webm"@.len());
    assert("gz"@.len() != "txt"@.len());
    assert("gz"@[0] != "md"@[0]);
    assert("gz"@.len() != "json"@.len());
    assert("gz"@.len() != "xml"@.len());
    assert("gz"@.len() != "html"@.len());
    assert("gz"@.len() != "csv"@.len());
    assert("gz"@.len() != "log"@.len());
    assert("gz"@.len() != "jpg"@.len());
    assert("gz"@.len() != "jpeg"@.len());
    assert("gz"@.len() != "png"@.len());
    assert("gz"@.len() != "gif"@.len());
    assert("gz"@.len() != "bmp"@.len());
    assert("gz"@.len() != "webp"@.len());
    assert("gz"@.len() != "mp3"@.len());
    assert("gz"@.len() != "wav"@.len());
    assert("gz"@.len() != "flac"@.len());
    assert("gz"@.len() != "ogg"@.len());
    assert("gz"@.len() != "m4a"@.len());
    assert("gz"@.len() != "mp4"@.len());
    assert("gz"@.len() != "avi"@.len());
    assert("gz"@.len() != "mkv"@.len());
    assert("gz"@.len() != "mov"@.len());
    assert("gz"@.len() != "webm"@.len());
}

/// The extensions of documents: pdf, doc, docx, ppt, pptx, xls, xlsx.
pub proof fn lemma_document_extensions()
    ensures
        file_type_from_lowercase("pdf"@) == FileType::Document,
        file_type_from_lowercase("doc"@) == FileType::Document,
        file_type_from_lowercase("docx"@) == FileType::Document,
        file_type_from_lowercase("ppt"@) == FileType::Document,
        file_type_from_lowercase("pptx"@) == FileType::Document,
        file_type_from_lowercase("xls"@) == FileType::Document,
        file_type_from_lowercase("xlsx"@) == FileType::Document,
{
    reveal_strlit("pdf");
    reveal_strlit("doc");
    reveal_strlit("docx");
    reveal_strlit("ppt");
    reveal_strlit("pptx");
    reveal_strlit("xls");
    reveal_strlit("xlsx");
    reveal_strlit("txt");
    reveal_strlit("md");
    reveal_strlit("json");
    reveal_strlit("xml");
    reveal_strlit("html");
    reveal_strlit("csv");
    reveal_strlit("log");
    reveal_strlit("jpg");
    reveal_strlit("jpeg");
    reveal_strlit("png");
    reveal_strlit("gif");
    reveal_strlit("bmp");
    reveal_strlit("webp");
    reveal_strlit("mp3");
    reveal_strlit("wav");
    reveal_strlit("flac");
    reveal_strlit("ogg");
    reveal_strlit("m4a");
    reveal_strlit("mp4");
    reveal_strlit("avi");
    reveal_strlit("mkv");
    reveal_strlit("mov");
    reveal_strlit("webm");
    reveal_strlit("zip");
    reveal_strlit("rar");
    reveal_strlit("7z");
    reveal_strlit("tar");
    reveal_strlit("gz");
    assert("pdf"@[0] != "txt"@[0]);
    assert("pdf"@.len() != "md"@.len());
    assert("pdf"@.len() != "json"@.len());
    assert("pdf"@[0] != "xml"@[0]);
    assert("pdf"@.len() != "html"@.len());
    assert("pdf"@[0] != "csv"@[0]);
    assert("pdf"@[0] != "log"@[0]);
    assert("pdf"@[0] != "jpg"@[0]);
    assert("pdf"@.len() != "jpeg"@.len());
    assert("pdf"@[1] != "png"@[1]);
    assert("pdf"@[0] != "gif"@[0]);
    assert("pdf"@[0] != "bmp"@[0]);
    assert("pdf"@.len() != "webp"@.len());
    assert("pdf"@[0] != "mp3"@[0]);
    assert("pdf"@[0] != "wav"@[0]);
    assert("pdf"@.len() != "flac"@.len());
    assert("pdf"@[0] != "ogg"@[0]);
    assert("pdf"@[0] != "m4a"@[0]);
    assert("pdf"@[0] != "mp4"@[0]);
    assert("pdf"@[0] != "avi"@[0]);
    assert("pdf"@[0] != "mkv"@[0]);
    assert("pdf"@[0] != "mov"@[0]);
    assert("pdf"@.len() != "webm"@.len());
    assert("pdf"@[0] != "zip"@[0]);
    assert("pdf"@[0] != "rar"@[0]);
    assert("pdf"@.len() != "7z"@.len());
    assert("pdf"@[0] != "tar"@[0]);
    assert("pdf"@.len() != "gz"@.len());
    assert("doc"@[0] != "txt"@[0]);
    assert("doc"@.len() != "md"@.len());
    assert("doc"@.len() != "json"@.len());
    assert("doc"@[0] != "xml"@[0]);
    assert("doc"@.len() != "html"@.len());
    assert("doc"@[0] != "csv"@[0]);
    assert("doc"@[0] != "log"@[0]);
    assert("doc"@[0] != "jpg"@[0]);
    assert("doc"@.len() != "jpeg"@.len());
    assert("doc"@[0] != "png"@[0]);
    assert("doc"@[0] != "gif"@[0]);
    assert("doc"@[0] != "bmp"@[0]);
    assert("doc"@.len() != "webp"@.len());
    assert("doc"@[0] != "mp3"@[0]);
    assert("doc"@[0] != "wav"@[0]);
    assert("doc"@.len() != "flac"@.len());
    assert("doc"@[0] != "ogg"@[0]);
    assert("doc"@[0] != "m4a"@[0]);
    assert("doc"@[0] != "mp4"@[0]);
    assert("doc"@[0] != "avi"@[0]);
    assert("doc"@[0] != "mkv"@[0]);
    assert("doc"@[0] != "mov"@[0]);
    assert("doc"@.len() != "webm"@.len());
    assert("doc"@[0] != "zip"@[0]);
    assert("doc"@[0] != "rar"@[0]);
    assert("doc"@.len() != "7z"@.len());
    assert("doc"@[0] != "tar"@[0]);
    assert("doc"@.len() != "gz"@.len());
    assert("docx"@.len() != "txt"@.len());
    assert("docx"@.len() != "md"@.len());
    assert("docx"@[0] != "json"@[0]);
    assert("docx"@.len() != "xml"@.len());
    assert("docx"@[0] != "html"@[0]);
    assert("docx"@.len() != "csv"@.len());
    assert("docx"@.len() != "log"@.len());
    assert("docx"@.len() != "jpg"@.len());
    assert("docx"@[0] != "jpeg"@[0]);
    assert("docx"@.len() != "png"@.len());
    assert("docx"@.len() != "gif"@.len());
    assert("docx"@.len() != "bmp"@.len());
    assert("docx"@[0] != "webp"@[0]);
    assert("docx"@.len() != "mp3"@.len());
    assert("docx"@.len() != "wav"@.len());
    assert("docx"@[0] != "flac"@[0]);
    assert("docx"@.len() != "ogg"@.len());
    assert("docx"@.len() != "m4a"@.len());
    assert("docx"@.len() != "mp4"@.len());
    assert("docx"@.len() != "avi"@.len());
    assert("docx"@.len() != "mkv"@.len());
    assert("docx"@.len() != "mov"@.len());
    assert("docx"@[0] != "webm"@[0]);
    assert("docx"@.len() != "zip"@.len());
    assert("docx"@.len() != "rar"@.len());
    assert("docx"@.len() != "7z"@.len());
    assert("docx"@.len() != "tar"@.len());
    assert("docx"@.len() != "gz"@.len());
    assert("ppt"@[0] != "txt"@[0]);
    assert("ppt"@.len() != "md"@.len());
    assert("ppt"@.len() != "json"@.len());
    assert("ppt"@[0] != "xml"@[0]);
    assert("ppt"@.len() != "html"@.len());
    assert("ppt"@[0] != "csv"@[0]);
    assert("ppt"@[0] != "log"@[0]);
    assert("ppt"@[0] != "jpg"@[0]);
    assert("ppt"@.len() != "jpeg"@.len());
    assert("ppt"@[1] != "png"@[1]);
    assert("ppt"@[0] != "gif"@[0]);
    assert("ppt"@[0] != "bmp"@[0]);
    assert("ppt"@.len() != "webp"@.len());
    assert("ppt"@[0] != "mp3"@[0]);
    assert("ppt"@[0] != "wav"@[0]);
    assert("ppt"@.len() != "flac"@.len());
    assert("ppt"@[0] != "ogg"@[0]);
    assert("ppt"@[0] != "m4a"@[0]);
    assert("ppt"@[0] != "mp4"@[0]);
    assert("ppt"@[0] != "avi"@[0]);
    assert("ppt"@[0] != "mkv"@[0]);
    assert("ppt"@[0] != "mov"@[0]);
    assert("ppt"@.len() != "webm"@.len());
    assert("ppt"@[0] != "zip"@[0]);
    assert("ppt"@[0] != "rar"@[0]);
    assert("ppt"@.len() != "7z"@.len());
    assert("ppt"@[0] != "tar"@[0]);
    assert("ppt"@.len() != "gz"@.len());
    assert("pptx"@.len() != "txt"@.len());
    assert("pptx"@.len() != "md"@.len());
    assert("pptx"@[0] != "json"@[0]);
    assert("pptx"@.len() != "xml"@.len());
    assert("pptx"@[0] != "html"@[0]);
    assert("pptx"@.len() != "csv"@.len());
    assert("pptx"@.len() != "log"@.len());
    assert("pptx"@.len() != "jpg"@.len());
    assert("pptx"@[0] != "jpeg"@[0]);
    assert("pptx"@.len() != "png"@.len());
    assert("pptx"@.len() != "gif"@.len());
    assert("pptx"@.len() != "bmp"@.len());
    assert("pptx"@[0] != "webp"@[0]);
    assert("pptx"@.len() != "mp3"@.len());
    assert("pptx"@.len() != "wav"@.len());
    assert("pptx"@[0] != "flac"@[0]);
    assert("pptx"@.len() != "ogg"@.len());
    assert("pptx"@.len() != "m4a"@.len());
    assert("pptx"@.len() != "mp4"@.len());
    assert("pptx"@.len() != "avi"@.len());
    assert("pptx"@.len() != "mkv"@.len());
    assert("pptx"@.len() != "mov"@.len());
    assert("pptx"@[0] != "webm"@[0]);
    assert("pptx"@.len() != "zip"@.len());
    assert("pptx"@.len() != "rar"@.len());
    assert("pptx"@.len() != "7z"@.len());
    assert("pptx"@.len() != "tar"@.len());
    assert("pptx"@.len() != "gz"@.len());
    assert("xls"@[0] != "txt"@[0]);
    assert("xls"@.len() != "md"@.len());
    assert("xls"@.len() != "json"@.len());
    assert("xls"@[1] != "xml"@[1]);
    assert("xls"@.len() != "html"@.len());
    assert("xls"@[0] != "csv"@[0]);
    assert("xls"@[0] != "log"@[0]);
    assert("xls"@[0] != "jpg"@[0]);
    assert("xls"@.len() != "jpeg"@.len());
    assert("xls"@[0] != "png"@[0]);
    assert("xls"@[0] != "gif"@[0]);
    assert("xls"@[0] != "bmp"@[0]);
    assert("xls"@.len() != "webp"@.len());
    assert("xls"@[0] != "mp3"@[0]);
    assert("xls"@[0] != "wav"@[0]);
    assert("xls"@.len() != "flac"@.len());
    assert("xls"@[0] != "ogg"@[0]);
    assert("xls"@[0] != "m4a"@[0]);
    assert("xls"@[0] != "mp4"@[0]);
    assert("xls"@[0] != "avi"@[0]);
    assert("xls"@[0] != "mkv"@[0]);
    assert("xls"@[0] != "mov"@[0]);
    assert("xls"@.len() != "webm"@.len());
    assert("xls"@[0] != "zip"@[0]);
    assert("xls"@[0] != "rar"@[0]);
    assert("xls"@.len() != "7z"@.len());
    assert("xls"@[0] != "tar"@[0]);
    assert("xls"@.len() != "gz"@.len());
    assert("xlsx"@.len() != "txt"@.len());
    assert("xlsx"@.len() != "md"@.len());
    assert("xlsx"@[0] != "json"@[0]);
    assert("xlsx"@.len() != "xml"@.len());
    assert("xlsx"@[0] != "html"@[0]);
    assert("xlsx"@.len() != "csv"@.len());
    assert("xlsx"@.len() != "log"@.len());
    assert("xlsx"@.len() != "jpg"@.len());
    assert("xlsx"@[0] != "jpeg"@[0]);
    assert("xlsx"@.len() != "png"@.len());
    assert("xlsx"@.len() != "gif"@.len());
    assert("xlsx"@.len() != "bmp"@.len());
    assert("xlsx"@[0] != "webp"@[0]);
    assert("xlsx"@.len() != "mp3"@.len());
    assert("xlsx"@.len() != "wav"@.len());
    assert("xlsx"@[0] != "flac"@[0]);
    assert("xlsx"@.len() != "ogg"@.len());
    assert("xlsx"@.len() != "m4a"@.len());
    assert("xlsx"@.len() != "mp4"@.len());
    assert("xlsx"@.len() != "avi"@.len());
    assert("xlsx"@.len() != "mkv"@.len());
    assert("xlsx"@.len() != "mov"@.len());
    assert("xlsx"@[0] != "webm"@[0]);
    assert("xlsx"@.len() != "zip"@.len());
    assert("xlsx"@.len() != "rar"@.len());
    assert("xlsx"@.len() != "7z"@.len());
    assert("xlsx"@.len() != "tar"@.len());
    assert("xlsx"@.len() != "gz"@.len());
}

/// The extensions of binaries: exe, dll, so, dylib.
pub proof fn lemma_binary_extensions()
    ensures
        file_type_from_lowercase("exe"@) == FileType::Binary,
        file_type_from_lowercase("dll"@) == FileType::Binary,
        file_type_from_lowercase("so"@) == FileType::Binary,
        file_type_from_lowercase("dylib"@) == FileType::Binary,
{
    reveal_strlit("exe");
    reveal_strlit("dll");
    reveal_strlit("so");
    reveal_strlit("dylib");
    reveal_strlit("txt");
    reveal_strlit("md");
    reveal_strlit("json");
    reveal_strlit("xml");
    reveal_strlit("html");
    reveal_strlit("csv");
    reveal_strlit("log");
    reveal_strlit("jpg");
    reveal_strlit("jpeg");
    reveal_strlit("png");
    reveal_strlit("gif");
    reveal_strlit("bmp");
    reveal_strlit("webp");
    reveal_strlit("mp3");
    reveal_strlit("wav");
    reveal_strlit("flac");
    reveal_strlit("ogg");
    reveal_strlit("m4a");
    reveal_strlit("mp4");
    reveal_strlit("avi");
    reveal_strlit("mkv");
    reveal_strlit("mov");
    reveal_strlit("webm");
    reveal_strlit("zip");
    reveal_strlit("rar");
    reveal_strlit("7z");
    reveal_strlit("tar");
    reveal_strlit("gz");
    reveal_strlit("pdf");
    reveal_strlit("doc");
    reveal_strlit("docx");
    reveal_strlit("ppt");
    reveal_strlit("pptx");
    reveal_strlit("xls");
    reveal_strlit("xlsx");
    assert("exe"@[0] != "txt"@[0]);
    assert("exe"@.len() != "md"@.len());
    assert("exe"@.len() != "json"@.len());
    assert("exe"@[0] != "xml"@[0]);
    assert("exe"@.len() != "html"@.len());
    assert("exe"@[0] != "csv"@[0]);
    assert("exe"@[0] != "log"@[0]);
    assert("exe"@[0] != "jpg"@[0]);
    assert("exe"@.len() != "jpeg"@.len());
    assert("exe"@[0] != "png"@[0]);
    assert("exe"@[0] != "gif"@[0]);
    assert("exe"@[0] != "bmp"@[0]);
    assert("exe"@.len() != "webp"@.len());
    assert("exe"@[0] != "mp3"@[0]);
    assert("exe"@[0] != "wav"@[0]);
    assert("exe"@.len() != "flac"@.len());
    assert("exe"@[0] != "ogg"@[0]);
    assert("exe"@[0] != "m4a"@[0]);
    assert("exe"@[0] != "mp4"@[0]);
    assert("exe"@[0] != "avi"@[0]);
    assert("exe"@[0] != "mkv"@[0]);
    assert("exe"@[0] != "mov"@[0]);
    assert("exe"@.len() != "webm"@.len());
    assert("exe"@[0] != "zip"@[0]);
    assert("exe"@[0] != "rar"@[0]);
    assert("exe"@.len() != "7z"@.len());
    assert("exe"@[0] != "tar"@[0]);
    assert("exe"@.len() != "gz"@.len());
    assert("exe"@[0] != "pdf"@[0]);
    assert("exe"@[0] != "doc"@[0]);
    assert("exe"@.len() != "docx"@.len());
    assert("exe"@[0] != "ppt"@[0]);
    assert("exe"@.len() != "pptx"@.len());
    assert("exe"@[0] != "xls"@[0]);
    assert("exe"@.len() != "xlsx"@.len());
    assert("dll"@[0] != "txt"@[0]);
    assert("dll"@.len() != "md"@.len());
    assert("dll"@.len() != "json"@.len());
    assert("dll"@[0] != "xml"@[0]);
    assert("dll"@.len() != "html"@.len());
    assert("dll"@[0] != "csv"@[0]);
    assert("dll"@[0] != "log"@[0]);
    assert("dll"@[0] != "jpg"@[0]);
    assert("dll"@.len() != "jpeg"@.len());
    assert("dll"@[0] != "png"@[0]);
    assert("dll"@[0] != "gif"@[0]);
    assert("dll"@[0] != "bmp"@[0]);
    assert("dll"@.len() != "webp"@.len());
    assert("dll"@[0] != "mp3"@[0]);
    assert("dll"@[0] != "wav"@[0]);
    assert("dll"@.len() != "flac"@.len());
    assert("dll"@[0] != "ogg"@[0]);
    assert("dll"@[0] != "m4a"@[0]);
    assert("dll"@[0] != "mp4"@[0]);
    assert("dll"@[0] != "avi"@[0]);
    assert("dll"@[0] != "mkv"@[0]);
    assert("dll"@[0] != "mov"@[0]);
    assert("dll"@.len() != "webm"@.len());
    assert("dll"@[0] != "zip"@[0]);
    assert("dll"@[0] != "rar"@[0]);
    assert("dll"@.len() != "7z"@.len());
    assert("dll"@[0] != "tar"@[0]);
    assert("dll"@.len() != "gz"@.len());
    assert("dll"@[0] != "pdf"@[0]);
    assert("dll"@[1] != "doc"@[1]);
    assert("dll"@.len() != "docx"@.len());
    assert("dll"@[0] != "ppt"@[0]);
    assert("dll"@.len() != "pptx"@.len());
    assert("dll"@[0] != "xls"@[0]);
    assert("dll"@.len() != "xlsx"@.len());
    assert("so"@.len() != "txt"@.len());
    assert("so"@[0] != "md"@[0]);
    assert("so"@.len() != "json"@.len());
    assert("so"@.len() != "xml"@.len());
    assert("so"@.len() != "html"@.len());
    assert("so"@.len() != "csv"@.len());
    assert("so"@.len() != "log"@.len());
    assert("so"@.len() != "jpg"@.len());
    assert("so"@.len() != "jpeg"@.len());
    assert("so"@.len() != "png"@.len());
    assert("so"@.len() != "gif"@.len());
    assert("so"@.len() != "bmp"@.len());
    assert("so"@.len() != "webp"@.len());
    assert("so"@.len() != "mp3"@.len());
    assert("so"@.len() != "wav"@.len());
    assert("so"@.len() != "flac"@.len());
    assert("so"@.len() != "ogg"@.len());
    assert("so"@.len() != "m4a"@.len());
    assert("so"@.len() != "mp4"@.len());
    assert("so"@.len() != "avi"@.len());
    assert("so"@.len() != "mkv"@.len());
    assert("so"@.len() != "mov"@.len());
    assert("so"@.len() != "webm"@.len());
    assert("so"@.len() != "zip"@.len());
    assert("so"@.len() != "rar"@.len());
    assert("so"@[0] != "7z"@[0]);
    assert("so"@.len() != "tar"@.len());
    assert("so"@[0] != "gz"@[0]);
    assert("so"@.len() != "pdf"@.len());
    assert("so"@.len() != "doc"@.len());
    assert("so"@.len() != "docx"@.len());
    assert("so"@.len() != "ppt"@.len());
    assert("so"@.len() != "pptx"@.len());
    assert("so"@.len() != "xls"@.len());
    assert("so"@.len() != "xlsx"@.len());
    assert("dylib"@.len() != "txt"@.len());
    assert("dylib"@.len() != "md"@.len());
    assert("dylib"@.len() != "json"@.len());
    assert("dylib"@.len() != "xml"@.len());
    assert("dylib"@.len() != "html"@.len());
    assert("dylib"@.len() != "csv"@.len());
    assert("dylib"@.len() != "log"@.len());
    assert("dylib"@.len() != "jpg"@.len());
    assert("dylib"@.len() != "jpeg"@.len());
    assert("dylib"@.len() != "png"@.len());
    assert("dylib"@.len() != "gif"@.len());
    assert("dylib"@.len() != "bmp"@.len());
    assert("dylib"@.len() != "webp"@.len());
    assert("dylib"@.len() != "mp3"@.len());
    assert("dylib"@.len() != "wav"@.len());
    assert("dylib"@.len() != "flac"@.len());
    assert("dylib"@.len() != "ogg"@.len());
    assert("dylib"@.len() != "m4a"@.len());
    assert("dylib"@.len() != "mp4"@.len());
    assert("dylib"@.len() != "avi"@.len());
    assert("dylib"@.len() != "mkv"@.len());
    assert("dylib"@.len() != "mov"@.len());
    assert("dylib"@.len() != "webm"@.len());
    assert("dylib"@.len() != "zip"@.len());
    assert("dylib"@.len() != "rar"@.len());
    assert("dylib"@.len() != "7z"@.len());
    assert("dylib"@.len() != "tar"@.len());
    assert("dylib"@.len() != "gz"@.len());
    assert("dylib"@.len() != "pdf"@.len());
    assert("dylib"@.len() != "doc"@.len());
    assert("dylib"@.len() != "docx"@.len());
    assert("dylib"@.len() != "ppt"@.len());
    assert("dylib"@.len() != "pptx"@.len());
    assert("dylib"@.len() != "xls"@.len());
    assert("dylib"@.len() != "xlsx"@.len());
}

/// Neither the empty extension nor one with a leading dot is listed.
pub proof fn lemma_unlisted_extensions()
    ensures
        file_type_from_lowercase(Seq::<char>::empty()) == FileType::Unknown,
        file_type_from_lowercase(".txt"@) == FileType::Unknown,
{
    reveal_strlit(".txt");
    reveal_strlit("txt");
    reveal_strlit("md");
    reveal_strlit("json");
    reveal_strlit("xml");
    reveal_strlit("html");
    reveal_strlit("csv");
    reveal_strlit("log");
    reveal_strlit("jpg");
    reveal_strlit("jpeg");
    reveal_strlit("png");
    reveal_strlit("gif");
    reveal_strlit("bmp");
    reveal_strlit("webp");
    reveal_strlit("mp3");
    reveal_strlit("wav");
    reveal_strlit("flac");
    reveal_strlit("ogg");
    reveal_strlit("m4a");
    reveal_strlit("mp4");
    reveal_strlit("avi");
    reveal_strlit("mkv");
    reveal_strlit("mov");
    reveal_strlit("webm");
    reveal_strlit("zip");
    reveal_strlit("rar");
    reveal_strlit("7z");
    reveal_strlit("tar");
    reveal_strlit("gz");
    reveal_strlit("pdf");
    reveal_strlit("doc");
    reveal_strlit("docx");
    reveal_strlit("ppt");
    reveal_strlit("pptx");
    reveal_strlit("xls");
    reveal_strlit("xlsx");
    reveal_strlit("exe");
    reveal_strlit("dll");
    reveal_strlit("so");
    reveal_strlit("dylib");
    assert(".txt"@.len() != "txt"@.len());
    assert(".txt"@.len() != "md"@.len());
    assert(".txt"@[0] != "json"@[0]);
    assert(".txt"@.len() != "xml"@.len());
    assert(".txt"@[0] != "html"@[0]);
    assert(".txt"@.len() != "csv"@.len());
    assert(".txt"@.len() != "log"@.len());
    assert(".txt"@.len() != "jpg"@.len());
    assert(".txt"@[0] != "jpeg"@[0]);
    assert(".txt"@.len() != "png"@.len());
    assert(".txt"@.len() != "gif"@.len());
    assert(".txt"@.len() != "bmp"@.len());
    assert(".txt"@[0] != "webp"@[0]);
    assert(".txt"@.len() != "mp3"@.len());
    assert(".txt"@.len() != "wav"@.len());
    assert(".txt"@[0] != "flac"@[0]);
    assert(".txt"@.len() != "ogg"@.len());
    assert(".txt"@.len() != "m4a"@.len());
    assert(".txt"@.len() != "mp4"@.len());
    assert(".txt"@.len() != "avi"@.len());
    assert(".txt"@.len() != "mkv"@.len());
    assert(".txt"@.len() != "mov"@.len());
    assert(".txt"@[0] != "webm"@[0]);
    assert(".txt"@.len() != "zip"@.len());
    assert(".txt"@.len() != "rar"@.len());
    assert(".txt"@.len() != "7z"@.len());
    assert(".txt"@.len() != "tar"@.len());
    assert(".txt"@.len() != "gz"@.len());
    assert(".txt"@.len() != "pdf"@.len());
    assert(".txt"@.len() != "doc"@.len());
    assert(".txt"@[0] != "docx"@[0]);
    assert(".txt"@.len() != "ppt"@.len());
    assert(".txt"@[0] != "pptx"@[0]);
    assert(".txt"@.len() != "xls"@.len());
    assert(".txt"@[0] != "xlsx"@[0]);
    assert(".txt"@.len() != "exe"@.len());
    assert(".txt"@.len() != "dll"@.len());
    assert(".txt"@.len() != "so"@.len());
    assert(".txt"@.len() != "dylib"@.len());
    assert("txt"@.len() != 0);
    assert("md"@.len() != 0);
    assert("json"@.len() != 0);
    assert("xml"@.len() != 0);
    assert("html"@.len() != 0);
    assert("csv"@.len() != 0);
    assert("log"@.len() != 0);
    assert("jpg"@.len() != 0);
    assert("jpeg"@.len() != 0);
    assert("png"@.len() != 0);
    assert("gif"@.len() != 0);
    assert("bmp"@.len() != 0);
    assert("webp"@.len() != 0);
    assert("mp3"@.len() != 0);
    assert("wav"@.len() != 0);
    assert("flac"@.len() != 0);
    assert("ogg"@.len() != 0);
    assert("m4a"@.len() != 0);
    assert("mp4"@.len() != 0);
    assert("avi"@.len() != 0);
    assert("mkv"@.len() != 0);
    assert("mov"@.len() != 0);
    assert("webm"@.len() != 0);
    assert("zip"@.len() != 0);
    assert("rar"@.len() != 0);
    assert("7z"@.len() != 0);
    assert("tar"@.len() != 0);
    assert("gz"@.len() != 0);
    assert("pdf"@.len() != 0);
    assert("doc"@.len() != 0);
    assert("docx"@.len() != 0);
    assert("ppt"@.len() != 0);
    assert("pptx"@.len() != 0);
    assert("xls"@.len() != 0);
    assert("xlsx"@.len() != 0);
    assert("exe"@.len() != 0);
    assert("dll"@.len() != 0);
    assert("so"@.len() != 0);
    assert("dylib"@.len() != 0);
}

/// The algorithm that suits a file type best.
pub open spec fn best_compression_for(t: FileType) -> CompressionAlgorithm {
    match t {
        FileType::Text | FileType::Document => CompressionAlgorithm::Lzma,
        FileType::Binary => CompressionAlgorithm::Zstd,
        FileType::Image | FileType::Audio | FileType::Video | FileType::Archive => {
            CompressionAlgorithm::NoCompression
        },
        FileType::Unknown => CompressionAlgorithm::Deflate,
    }
}

/// The algorithm that suits each file type: LZMA for text and documents,
/// Zstandard for binaries, none for images, audio, video and archives
/// (already compressed), DEFLATE for unknown types.
pub proof fn lemma_best_compression_table()
    ensures
        best_compression_for(FileType::Text) == CompressionAlgorithm::Lzma,
        best_compression_for(FileType::Document) == CompressionAlgorithm::Lzma,
        best_compression_for(FileType::Binary) == CompressionAlgorithm::Zstd,
        best_compression_for(FileType::Image) == CompressionAlgorithm::NoCompression,
        best_compression_for(FileType::Audio) == CompressionAlgorithm::NoCompression,
        best_compression_for(FileType::Video) == CompressionAlgorithm::NoCompression,
        best_compression_for(FileType::Archive) == CompressionAlgorithm::NoCompression,
        best_compression_for(FileType::Unknown) == CompressionAlgorithm::Deflate,
{
}


impl FileType {
    /// Classifies an already lower-cased extension.
    pub fn from_lowercase_extension(e: &str) -> (res: Self)
        ensures
            res == file_type_from_lowercase(e@),
    {
        if str_eq(e, "txt") || str_eq(e, "md") || str_eq(e, "json") || str_eq(e, "xml") || str_eq(
            e,
            "html",
        ) || str_eq(e, "csv") || str_eq(e, "log") {
            FileType::Text
        } else if str_eq(e, "jpg") || str_eq(e, "jpeg") || str_eq(e, "png") || str_eq(e, "gif")
            || str_eq(e, "bmp") || str_eq(e, "webp") {
            FileType::Image
        } else if str_eq(e, "mp3") || str_eq(e, "wav") || str_eq(e, "flac") || str_eq(e, "ogg")
            || str_eq(e, "m4a") {
            FileType::Audio
        } else if str_eq(e, "mp4") || str_eq(e, "avi") || str_eq(e, "mkv") || str_eq(e, "mov")
            || str_eq(e, "webm") {
            FileType::Video
        } else if str_eq(e, "zip") || str_eq(e, "rar") || str_eq(e, "7z") || str_eq(e, "tar")
            || str_eq(e, "gz") {
            FileType::Archive
        } else if str_eq(e, "pdf") || str_eq(e, "doc") || str_eq(e, "docx") || str_eq(e, "ppt")
            || str_eq(e, "pptx") || str_eq(e, "xls") || str_eq(e, "xlsx") {
            FileType::Document
        } else if str_eq(e, "exe") || str_eq(e, "dll") || str_eq(e, "so") || str_eq(e, "dylib") {
            FileType::Binary
        } else {
            FileType::Unknown
        }
    }

    /// Classifies a file extension, ignoring case.
    pub fn from_extension(ext: &str) -> (res: Self)
        ensures
            res == file_type_from_lowercase(lowercase(ext@)),
            all_ascii(ext@) ==> res == file_type_from_lowercase(ascii_lower(ext@)),
    {
        let lower = to_lowercase(ext);
        Self::from_lowercase_extension(lower.as_str())
    }

    /// The algorithm that suits this file type best.
    pub fn best_compression(&self) -> (res: CompressionAlgorithm)
        ensures
            res == best_compression_for(*self),
    {
        match self {
            FileType::Text | FileType::Document => CompressionAlgorithm::Lzma,
            FileType::Binary => CompressionAlgorithm::Zstd,
            FileType::Image | FileType::Audio | FileType::Video | FileType::Archive => {
                CompressionAlgorithm::NoCompression
            },
            FileType::Unknown => CompressionAlgorithm::Deflate,
        }
    }
}

} // verus!
