//! File entries and archive metadata.
use vstd::prelude::*;
use vstd::string::StrSliceExecFns;
use vstd::utf8::{decode_utf8, encode_utf8, valid_utf8};
use crate::rzx_core::{
    CompressionAlgorithm, Corruption, FileType, RzxError, RzxResult, best_compression_for,
    file_type_from_lowercase,
};
use crate::rzx_core::text::{lowercase, str_from_utf8};
use crate::rzx_core::codec::FormatError;
use crate::rzx_core::compression::algorithm_for;
use crate::rzx_core::metadata_format::{
    dec_metadata, decode_metadata, enc_metadata, encode_metadata, is_encodable, metadata_bounded,
    metadata_encodable,
};
use crate::rzx_core::path::{
    extension, lemma_path_order, path_compare, path_eq, path_extension, path_order, path_same,
};

verus! {

/// A point in time at or after the Unix epoch.
#[derive(Debug, Clone, Copy, PartialEq, Eq, Structural)]
pub struct Timestamp {
    /// Whole seconds since the epoch.
    pub secs: u64,
    /// Nanoseconds past `secs`.
    pub nanos: u32,
}

/// A system time: either an offset from the Unix epoch or a time before it
/// (which the metadata format cannot hold).
#[derive(Debug, Clone, Copy, PartialEq, Eq, Structural)]
pub enum Time {
    SinceEpoch(Timestamp),
    BeforeEpoch,
}

/// File entry of an RZX archive.
#[derive(Debug, Clone)]
pub struct FileEntry {
    /// Relative path of the file in the archive.
    pub path: String,
    /// Original file size in bytes.
    pub original_size: u64,
    /// Size of the stored (compressed, then possibly encrypted) data.
    pub compressed_size: u64,
    /// Compression algorithm used for this file.
    pub compression: CompressionAlgorithm,
    /// File type classification.
    pub file_type: FileType,
    /// Offset of the stored data in the data section.
    pub data_offset: u64,
    /// CRC-32 of the original file contents.
    pub checksum: u32,
    /// File permissions (Unix-style).
    pub permissions: u32,
    /// Creation time.
    pub created: Option<Time>,
    /// Last modification time.
    pub modified: Option<Time>,
    /// Last access time.
    pub accessed: Option<Time>,
    /// Whether this entry represents a directory.
    pub is_directory: bool,
    /// Extended attributes, keyed by name (no name occurs twice).
    pub extended_attrs: Vec<(String, Vec<u8>)>,
}

/// A file entry as mathematical values.
pub struct EntryModel {
    pub path: Seq<char>,
    pub original_size: u64,
    pub compressed_size: u64,
    pub compression: CompressionAlgorithm,
    pub file_type: FileType,
    pub data_offset: u64,
    pub checksum: u32,
    pub permissions: u32,
    pub created: Option<Time>,
    pub modified: Option<Time>,
    pub accessed: Option<Time>,
    pub is_directory: bool,
    pub extended_attrs: Seq<(Seq<char>, Seq<u8>)>,
}

pub open spec fn attrs_view(v: Seq<(String, Vec<u8>)>) -> Seq<(Seq<char>, Seq<u8>)> {
    v.map_values(|p: (String, Vec<u8>)| (p.0@, p.1@))
}

pub open spec fn fields_view(v: Seq<(String, String)>) -> Seq<(Seq<char>, Seq<char>)> {
    v.map_values(|p: (String, String)| (p.0@, p.1@))
}

impl View for FileEntry {
    type V = EntryModel;

    open spec fn view(&self) -> EntryModel {
        EntryModel {
            path: self.path@,
            original_size: self.original_size,
            compressed_size: self.compressed_size,
            compression: self.compression,
            file_type: self.file_type,
            data_offset: self.data_offset,
            checksum: self.checksum,
            permissions: self.permissions,
            created: self.created,
            modified: self.modified,
            accessed: self.accessed,
            is_directory: self.is_directory,
            extended_attrs: attrs_view(self.extended_attrs@),
        }
    }
}

/// Archive metadata: all file entries and global information.
#[derive(Debug, Clone)]
pub struct ArchiveMetadata {
    /// All file entries.
    pub entries: Vec<FileEntry>,
    /// Archive comment.
    pub comment: Option<String>,
    /// Creator information.
    pub creator: String,
    /// Archive creation time.
    pub created_at: Time,
    /// Last modification time.
    pub modified_at: Time,
    /// Custom metadata fields, keyed by name (no name occurs twice).
    pub custom_fields: Vec<(String, String)>,
}

/// Archive metadata as mathematical values.
pub struct MetadataModel {
    pub entries: Seq<EntryModel>,
    pub comment: Option<Seq<char>>,
    pub creator: Seq<char>,
    pub created_at: Time,
    pub modified_at: Time,
    pub custom_fields: Seq<(Seq<char>, Seq<char>)>,
}

pub open spec fn entries_view(v: Seq<FileEntry>) -> Seq<EntryModel> {
    v.map_values(|e: FileEntry| e@)
}

pub open spec fn opt_text_view(o: Option<String>) -> Option<Seq<char>> {
    match o {
        Some(s) => Some(s@),
        None => None,
    }
}

impl View for ArchiveMetadata {
    type V = MetadataModel;

    open spec fn view(&self) -> MetadataModel {
        MetadataModel {
            entries: entries_view(self.entries@),
            comment: opt_text_view(self.comment),
            creator: self.creator@,
            created_at: self.created_at,
            modified_at: self.modified_at,
            custom_fields: fields_view(self.custom_fields@),
        }
    }
}

#[verifier::external_type_specification]
#[verifier::external_body]
pub struct ExSystemTime(std::time::SystemTime);

/// Calls `SystemTime::now`. Which time it returns depends on the clock, so
/// nothing is stated of it.
#[verifier::external_body]
fn system_now() -> (t: std::time::SystemTime) {
    std::time::SystemTime::now()
}

/// Calls `SystemTime::duration_since` with `UNIX_EPOCH`: the time from the
/// epoch to `t`, none when `t` lies before the epoch. Verus sees nothing
/// inside a `SystemTime`, so nothing is stated of the result.
#[verifier::external_body]
fn since_epoch(t: &std::time::SystemTime) -> (d: Option<std::time::Duration>) {
    t.duration_since(std::time::UNIX_EPOCH).ok()
}

/// Calls `Duration::as_secs`, the whole seconds of a duration. Verus sees
/// nothing inside a `Duration`, so nothing is stated of the result.
#[verifier::external_body]
fn duration_secs(d: &std::time::Duration) -> (secs: u64) {
    d.as_secs()
}

/// Calls `Duration::subsec_nanos`, the fractional part of a duration in
/// nanoseconds, which its documentation says is always less than one
/// billion.
#[verifier::external_body]
fn duration_subsec_nanos(d: &std::time::Duration) -> (nanos: u32)
    ensures
        nanos < 1_000_000_000,
{
    d.subsec_nanos()
}

/// Reads the system clock and measures it from the Unix epoch: a time
/// before the epoch is `BeforeEpoch`; otherwise the whole seconds and the
/// nanoseconds past them. Which time it reads is not stated.
pub fn current_time() -> (t: Time)
    ensures
        t matches Time::SinceEpoch(ts) ==> ts.nanos < 1_000_000_000,
{
    let now = system_now();
    match since_epoch(&now) {
        Some(d) => Time::SinceEpoch(Timestamp { secs: duration_secs(&d), nanos: duration_subsec_nanos(&d) }),
        None => Time::BeforeEpoch,
    }
}

/// Whether the last character of `s` is `/`.
fn ends_with_slash(s: &str) -> (res: bool)
    ensures
        res == (s@.len() > 0 && s@.last() == '/'),
{
    let n = s.unicode_len();
    n > 0 && s.get_char(n - 1) == '/'
}

/// The file type that a path's extension gives.
pub open spec fn file_type_of_path(path: Seq<char>) -> FileType {
    match path_extension(encode_utf8(path)) {
        None => FileType::Unknown,
        Some(e) => if valid_utf8(e) {
            file_type_from_lowercase(lowercase(decode_utf8(e)))
        } else {
            FileType::Unknown
        },
    }
}

/// A new, empty entry for a file at `path`.
pub open spec fn new_entry(path: Seq<char>) -> EntryModel {
    EntryModel {
        path,
        original_size: 0,
        compressed_size: 0,
        compression: best_compression_for(file_type_of_path(path)),
        file_type: file_type_of_path(path),
        data_offset: 0,
        checksum: 0,
        permissions: 0o644,
        created: None,
        modified: None,
        accessed: None,
        is_directory: false,
        extended_attrs: Seq::empty(),
    }
}

/// Whether an entry's contents are worth compressing.
pub open spec fn worth_compressing(e: EntryModel) -> bool {
    !e.is_directory && e.original_size >= 100 && (e.file_type == FileType::Text || e.file_type
        == FileType::Binary || e.file_type == FileType::Document || e.file_type
        == FileType::Unknown)
}

/// The algorithm `optimize_compression` picks for an entry.
pub open spec fn optimized_compression(e: EntryModel) -> CompressionAlgorithm {
    if !worth_compressing(e) {
        CompressionAlgorithm::NoCompression
    } else {
        match e.file_type {
            FileType::Text | FileType::Document => if e.original_size > 1024 * 1024 {
                CompressionAlgorithm::Lzma
            } else {
                CompressionAlgorithm::Deflate
            },
            FileType::Binary => CompressionAlgorithm::Zstd,
            _ => CompressionAlgorithm::Deflate,
        }
    }
}

/// A new file entry is empty and not yet stored: sizes, offset and
/// checksum 0, permissions 0o644, no times and no attributes; its type is
/// the one its path's extension gives and its compression the one that
/// type suits.
pub proof fn lemma_new_entry_defaults(path: Seq<char>)
    ensures
        new_entry(path).path == path,
        !new_entry(path).is_directory,
        new_entry(path).original_size == 0,
        new_entry(path).compressed_size == 0,
        new_entry(path).data_offset == 0,
        new_entry(path).checksum == 0,
        new_entry(path).permissions == 0o644,
        new_entry(path).created is None && new_entry(path).modified is None && new_entry(path).accessed is None,
        new_entry(path).extended_attrs.len() == 0,
        new_entry(path).file_type == file_type_of_path(path),
        new_entry(path).compression == best_compression_for(file_type_of_path(path)),
{
}

/// An entry is worth compressing exactly when it is a file of at least 100
/// bytes whose type is not an already compressed format (image, audio,
/// video or archive).
pub proof fn lemma_worth_compressing(e: EntryModel)
    ensures
        worth_compressing(e) <==> !e.is_directory && e.original_size >= 100 && e.file_type != FileType::Image
            && e.file_type != FileType::Audio && e.file_type != FileType::Video && e.file_type
            != FileType::Archive,
{
}

/// What `FileEntry::validate` decides.
pub open spec fn entry_check(e: EntryModel) -> Result<(), Corruption> {
    if e.path.len() == 0 {
        Err(Corruption::EmptyPath)
    } else if e.is_directory && e.original_size > 0 {
        Err(Corruption::DirectoryWithSize)
    } else if !e.is_directory && e.compressed_size == 0 && e.original_size > 0 {
        Err(Corruption::ZeroCompressedSize)
    } else {
        Ok(())
    }
}

/// Plain values of a file's metadata as the file system reports them.
#[derive(Debug, Clone, Copy)]
pub struct FsMetadata {
    pub is_dir: bool,
    /// Size in bytes.
    pub len: u64,
    /// Unix mode bits.
    pub mode: u32,
    /// Times that the file system could report.
    pub created: Option<Time>,
    pub modified: Option<Time>,
    pub accessed: Option<Time>,
}

impl FileEntry {
    /// A new entry for a file at `path`: no sizes, offset or checksum yet,
    /// permissions 0o644, the type that the extension gives and the
    /// algorithm that suits it best.
    pub fn new(path: &str) -> (e: Self)
        ensures
            e@ == new_entry(path@),
    {
        let file_type = match extension(path) {
            None => FileType::Unknown,
            Some(ext) => match str_from_utf8(ext) {
                Some(text) => FileType::from_extension(text.as_str()),
                None => FileType::Unknown,
            },
        };
        let e = FileEntry {
            path: path.to_owned(),
            original_size: 0,
            compressed_size: 0,
            compression: file_type.best_compression(),
            file_type,
            data_offset: 0,
            checksum: 0,
            permissions: 0o644,
            created: None,
            modified: None,
            accessed: None,
            is_directory: false,
            extended_attrs: Vec::new(),
        };
        assert(attrs_view(e.extended_attrs@) =~= Seq::<(Seq<char>, Seq<u8>)>::empty());
        e
    }

    /// A new entry for a directory: permissions 0o755, no compression.
    pub fn new_directory(path: &str) -> (e: Self)
        ensures
            e@ == (EntryModel {
                is_directory: true,
                permissions: 0o755,
                compression: CompressionAlgorithm::NoCompression,
                ..new_entry(path@)
            }),
    {
        let mut entry = Self::new(path);
        entry.is_directory = true;
        entry.permissions = 0o755;
        entry.compression = CompressionAlgorithm::NoCompression;
        entry
    }

    /// Whether the contents are worth compressing: not for directories, files
    /// under 100 bytes, or formats that are already compressed.
    pub fn should_compress(&self) -> (res: bool)
        ensures
            res == worth_compressing(self@),
    {
        if self.is_directory {
            return false;
        }
        if self.original_size < 100 {
            return false;
        }
        match self.file_type {
            FileType::Text | FileType::Binary | FileType::Document | FileType::Unknown => true,
            _ => false,
        }
    }

    /// Chooses the compression algorithm from the type and size.
    pub fn optimize_compression(&mut self)
        ensures
            final(self)@ == (EntryModel { compression: optimized_compression(old(self)@), ..old(self)@ }),
    {
        if !self.should_compress() {
            self.compression = CompressionAlgorithm::NoCompression;
            return;
        }
        self.compression = match self.file_type {
            FileType::Text | FileType::Document => {
                if self.original_size > 1024 * 1024 {
                    CompressionAlgorithm::Lzma
                } else {
                    CompressionAlgorithm::Deflate
                }
            },
            FileType::Binary => CompressionAlgorithm::Zstd,
            _ => CompressionAlgorithm::Deflate,
        };
    }

    /// Takes the kind, size, permissions and times from the file system's
    /// report (a directory's size is 0; times it could not report stay).
    pub fn set_metadata_from_fs(&mut self, metadata: &FsMetadata) -> (res: RzxResult<()>)
        ensures
            res is Ok,
            final(self)@ == (EntryModel {
                is_directory: metadata.is_dir,
                original_size: if metadata.is_dir { 0 } else { metadata.len },
                permissions: metadata.mode,
                created: if metadata.created is Some { metadata.created } else { old(self)@.created },
                modified: if metadata.modified is Some { metadata.modified } else { old(self)@.modified },
                accessed: if metadata.accessed is Some { metadata.accessed } else { old(self)@.accessed },
                ..old(self)@
            }),
    {
        self.is_directory = metadata.is_dir;
        if self.is_directory {
            self.original_size = 0;
        } else {
            self.original_size = metadata.len;
        }
        self.permissions = metadata.mode;
        if metadata.created.is_some() {
            self.created = metadata.created;
        }
        if metadata.modified.is_some() {
            self.modified = metadata.modified;
        }
        if metadata.accessed.is_some() {
            self.accessed = metadata.accessed;
        }
        Ok(())
    }

    /// The path as shown to users, with a trailing `/` for directories.
    pub fn display_name(&self) -> (name: String)
        ensures
            name@ == if self.is_directory && !(self.path@.len() > 0 && self.path@.last() == '/') {
                self.path@.push('/')
            } else {
                self.path@
            },
    {
        let mut name = self.path.clone();
        if self.is_directory && !ends_with_slash(self.path.as_str()) {
            name.append("/");
            proof {
                reveal_strlit("/");
            }
            assert(name@ =~= self.path@.push('/'));
        }
        name
    }

    /// Checks that the path is not empty, that a directory has no size, and
    /// that a non-empty file has stored data.
    pub fn validate(&self) -> (res: RzxResult<()>)
        ensures
            match entry_check(self@) {
                Ok(_) => res is Ok,
                Err(c) => res matches Err(RzxError::CorruptedArchive(c2)) && c2 == c,
            },
    {
        if self.path.as_str().is_empty() {
            return Err(RzxError::CorruptedArchive(Corruption::EmptyPath));
        }
        if self.is_directory && self.original_size > 0 {
            return Err(RzxError::CorruptedArchive(Corruption::DirectoryWithSize));
        }
        if !self.is_directory && self.compressed_size == 0 && self.original_size > 0 {
            return Err(RzxError::CorruptedArchive(Corruption::ZeroCompressedSize));
        }
        Ok(())
    }
}

/// Sum of the original sizes of entries.
pub open spec fn sum_original(es: Seq<EntryModel>) -> int
    decreases es.len(),
{
    if es.len() == 0 {
        0
    } else {
        sum_original(es.drop_last()) + es.last().original_size
    }
}

/// Sum of the stored sizes of entries.
pub open spec fn sum_compressed(es: Seq<EntryModel>) -> int
    decreases es.len(),
{
    if es.len() == 0 {
        0
    } else {
        sum_compressed(es.drop_last()) + es.last().compressed_size
    }
}

/// Number of entries that are directories (`dirs`) or files (`!dirs`).
pub open spec fn count_kind(es: Seq<EntryModel>, dirs: bool) -> nat
    decreases es.len(),
{
    if es.len() == 0 {
        0
    } else {
        count_kind(es.drop_last(), dirs) + (if es.last().is_directory == dirs {
            1nat
        } else {
            0nat
        })
    }
}

/// Whether an entry's path equals `path` by components.
pub open spec fn entry_at(e: EntryModel, path: Seq<char>) -> bool {
    path_same(encode_utf8(e.path), encode_utf8(path))
}

/// Index of the first entry at `path`, or -1.
pub open spec fn find_index(es: Seq<EntryModel>, path: Seq<char>) -> int
    decreases es.len(),
{
    if es.len() == 0 {
        -1
    } else {
        let r = find_index(es.drop_last(), path);
        if r >= 0 {
            r
        } else if entry_at(es.last(), path) {
            es.len() - 1
        } else {
            -1
        }
    }
}

/// The first failing entry check, in order.
pub open spec fn entries_check(es: Seq<EntryModel>) -> Result<(), Corruption>
    decreases es.len(),
{
    if es.len() == 0 {
        Ok(())
    } else {
        match entries_check(es.drop_last()) {
            Err(c) => Err(c),
            Ok(_) => entry_check(es.last()),
        }
    }
}

/// Index of the first entry whose path equals that of an earlier entry, or -1.
pub open spec fn duplicate_index(es: Seq<EntryModel>) -> int
    decreases es.len(),
{
    if es.len() == 0 {
        -1
    } else {
        let r = duplicate_index(es.drop_last());
        if r >= 0 {
            r
        } else if exists|i: int| 0 <= i < es.len() - 1 && entry_at(es[i], es.last().path) {
            es.len() - 1
        } else {
            -1
        }
    }
}

/// The totals add up the sizes: no entries total nothing, and adding an
/// entry adds its original size to the original total and its stored size
/// to the stored total.
pub proof fn lemma_totals_add_up(es: Seq<EntryModel>, e: EntryModel)
    ensures
        sum_original(Seq::<EntryModel>::empty()) == 0,
        sum_compressed(Seq::<EntryModel>::empty()) == 0,
        sum_original(es.push(e)) == sum_original(es) + e.original_size,
        sum_compressed(es.push(e)) == sum_compressed(es) + e.compressed_size,
{
    assert(es.push(e).drop_last() =~= es);
}

/// An entry passes its check exactly when its path is not empty, a
/// directory has no size, and a non-empty file has stored data; the
/// failures name what is wrong, the path first.
pub proof fn lemma_entry_check_meaning(e: EntryModel)
    ensures
        entry_check(e) is Ok <==> e.path.len() > 0 && (e.is_directory ==> e.original_size == 0) && (
        !e.is_directory && e.original_size > 0 ==> e.compressed_size > 0),
        e.path.len() == 0 ==> entry_check(e) == Err::<(), Corruption>(Corruption::EmptyPath),
        e.path.len() > 0 && e.is_directory && e.original_size > 0 ==> entry_check(e) == Err::<
            (),
            Corruption,
        >(Corruption::DirectoryWithSize),
        e.path.len() > 0 && !e.is_directory && e.original_size > 0 && e.compressed_size == 0
            ==> entry_check(e) == Err::<(), Corruption>(Corruption::ZeroCompressedSize),
{
}

/// Counting goes by kind alone: no entries count nothing, and adding an
/// entry raises the file count by one exactly when it is not a directory,
/// and the directory count by one exactly when it is, whatever its size or
/// other fields.
pub proof fn lemma_count_by_kind(es: Seq<EntryModel>, e: EntryModel)
    ensures
        count_kind(Seq::<EntryModel>::empty(), false) == 0,
        count_kind(Seq::<EntryModel>::empty(), true) == 0,
        count_kind(es.push(e), false) == count_kind(es, false) + (if e.is_directory { 0int } else { 1int }),
        count_kind(es.push(e), true) == count_kind(es, true) + (if e.is_directory { 1int } else { 0int }),
{
    assert(es.push(e).drop_last() =~= es);
}

/// Every entry is a file or a directory: the two counts add up to the
/// number of entries.
pub proof fn lemma_counts_partition(es: Seq<EntryModel>)
    ensures
        count_kind(es, false) + count_kind(es, true) == es.len(),
    decreases es.len(),
{
    if es.len() > 0 {
        lemma_counts_partition(es.drop_last());
    }
}

/// Looking up a path finds the first entry at that path (paths compared by
/// components), and none when no entry is at it.
pub proof fn lemma_find_first(es: Seq<EntryModel>, path: Seq<char>)
    ensures
        find_index(es, path) >= 0 ==> find_index(es, path) < es.len() && path_same(
            encode_utf8(es[find_index(es, path)].path),
            encode_utf8(path),
        ) && forall|j: int|
            0 <= j < find_index(es, path) ==> !path_same(encode_utf8(#[trigger] es[j].path), encode_utf8(path)),
        find_index(es, path) < 0 ==> find_index(es, path) == -1 && forall|j: int|
            0 <= j < es.len() ==> !path_same(encode_utf8(#[trigger] es[j].path), encode_utf8(path)),
    decreases es.len(),
{
    if es.len() > 0 {
        let d = es.drop_last();
        lemma_find_first(d, path);
        let r = find_index(d, path);
        let n = es.len() - 1;
        assert(es.last() == es[n]);
        if r >= 0 {
            assert(d[r] == es[r]);
            assert forall|j: int| 0 <= j < r implies !path_same(encode_utf8(#[trigger] es[j].path), encode_utf8(path)) by {
                assert(d[j] == es[j]);
                assert(!path_same(encode_utf8(d[j].path), encode_utf8(path)));
            }
        } else {
            assert forall|j: int| 0 <= j < n implies !path_same(encode_utf8(#[trigger] es[j].path), encode_utf8(path)) by {
                assert(d[j] == es[j]);
                assert(!path_same(encode_utf8(d[j].path), encode_utf8(path)));
            }
        }
    }
}

/// After an entry is added, looking up its path finds an entry at that path.
pub proof fn lemma_add_then_find(es: Seq<EntryModel>, e: EntryModel)
    ensures
        0 <= find_index(es.push(e), e.path) < es.len() + 1,
        entry_at(es.push(e)[find_index(es.push(e), e.path)], e.path),
{
    lemma_find_index_bounds(es, e.path);
    assert(es.push(e).drop_last() =~= es);
    assert(es.push(e).last() == e);
    assert(entry_at(e, e.path));
}

proof fn lemma_find_index_bounds(es: Seq<EntryModel>, path: Seq<char>)
    ensures
        -1 <= find_index(es, path) < es.len(),
        find_index(es, path) >= 0 ==> entry_at(es[find_index(es, path)], path),
    decreases es.len(),
{
    if es.len() > 0 {
        lemma_find_index_bounds(es.drop_last(), path);
    }
}

/// For a file, the algorithm that `optimize_compression` picks is the one
/// that `select_compression_algorithm` gives for its type and size.
pub proof fn lemma_optimized_is_selected(e: EntryModel)
    requires
        !e.is_directory,
    ensures
        optimized_compression(e) == algorithm_for(e.file_type, e.original_size),
{
}

proof fn lemma_prefix_step(es: Seq<EntryModel>, i: int)
    requires
        0 <= i < es.len(),
    ensures
        es.take(i + 1).drop_last() == es.take(i),
        es.take(i + 1).last() == es[i],
{
    assert(es.take(i + 1).drop_last() =~= es.take(i));
}

impl ArchiveMetadata {
    /// New, empty metadata created by this tool at time `now`.
    pub fn new_at(now: Time) -> (m: Self)
        ensures
            m@.entries.len() == 0,
            m@.comment is None,
            m@.creator == "rzx-compressor v0.1.0"@,
            m@.created_at == now,
            m@.modified_at == now,
            m@.custom_fields.len() == 0,
    {
        ArchiveMetadata {
            entries: Vec::new(),
            comment: None,
            creator: "rzx-compressor v0.1.0".to_owned(),
            created_at: now,
            modified_at: now,
            custom_fields: Vec::new(),
        }
    }

    /// New, empty metadata created now by this tool: `new_at` with the
    /// clock's reading.
    pub fn new() -> (m: Self)
        ensures
            m@.entries.len() == 0,
            m@.comment is None,
            m@.creator == "rzx-compressor v0.1.0"@,
            m@.created_at == m@.modified_at,
            m@.created_at matches Time::SinceEpoch(ts) ==> ts.nanos < 1_000_000_000,
            m@.custom_fields.len() == 0,
    {
        Self::new_at(current_time())
    }

    /// Appends an entry and sets the modification time to `now`.
    pub fn add_entry_at(&mut self, entry: FileEntry, now: Time)
        ensures
            final(self)@ == (MetadataModel {
                entries: old(self)@.entries.push(entry@),
                modified_at: now,
                ..old(self)@
            }),
    {
        let ghost ev = entry@;
        self.entries.push(entry);
        self.modified_at = now;
        assert(entries_view(self.entries@) =~= entries_view(old(self).entries@).push(ev));
    }

    /// Appends an entry and sets the modification time to now: `add_entry_at`
    /// with the clock's reading.
    pub fn add_entry(&mut self, entry: FileEntry)
        ensures
            final(self)@.entries == old(self)@.entries.push(entry@),
            final(self)@ == (MetadataModel {
                entries: final(self)@.entries,
                modified_at: final(self)@.modified_at,
                ..old(self)@
            }),
            final(self)@.modified_at matches Time::SinceEpoch(ts) ==> ts.nanos < 1_000_000_000,
    {
        let now = current_time();
        self.add_entry_at(entry, now);
    }

    /// Index of the first entry at `path` (compared by components).
    fn find_position(&self, path: &str) -> (res: Option<usize>)
        ensures
            match res {
                Some(i) => i == find_index(self@.entries, path@) && 0 <= i < self.entries@.len(),
                None => find_index(self@.entries, path@) == -1,
            },
    {
        let ghost es = self@.entries;
        let mut i: usize = 0;
        assert(es.take(0) =~= Seq::<EntryModel>::empty());
        while i < self.entries.len()
            invariant
                es == self@.entries,
                es.len() == self.entries@.len(),
                i <= es.len(),
                find_index(es.take(i as int), path@) == -1,
            decreases es.len() - i,
        {
            proof {
                lemma_prefix_step(es, i as int);
            }
            assert(es[i as int] == self.entries@[i as int]@);
            if path_eq(self.entries[i].path.as_str(), path) {
                proof {
                    lemma_find_index_prefix(es, path@, (i + 1) as int);
                }
                return Some(i);
            }
            i = i + 1;
        }
        assert(es.take(es.len() as int) =~= es);
        None
    }

    /// The first entry at `path` (compared by components).
    pub fn find_entry(&self, path: &str) -> (res: Option<&FileEntry>)
        ensures
            match res {
                Some(e) => find_index(self@.entries, path@) >= 0 && e@ == self@.entries[find_index(
                    self@.entries,
                    path@,
                )],
                None => find_index(self@.entries, path@) == -1,
            },
    {
        match self.find_position(path) {
            Some(i) => Some(&self.entries[i]),
            None => None,
        }
    }

    /// The first entry at `path` (compared by components), to be changed in place.
    pub fn find_entry_mut(&mut self, path: &str) -> (res: Option<&mut FileEntry>)
        ensures
            match res {
                Some(e) => {
                    let i = find_index(old(self)@.entries, path@);
                    &&& 0 <= i < old(self).entries@.len()
                    &&& *e == old(self).entries@[i]
                    &&& final(self).entries@ == old(self).entries@.update(i, *final(e))
                    &&& final(self).comment == old(self).comment
                    &&& final(self).creator == old(self).creator
                    &&& final(self).created_at == old(self).created_at
                    &&& final(self).modified_at == old(self).modified_at
                    &&& final(self).custom_fields == old(self).custom_fields
                },
                None => find_index(old(self)@.entries, path@) == -1 && *final(self) == *old(self),
            },
    {
        match self.find_position(path) {
            Some(i) => Some(&mut self.entries[i]),
            None => None,
        }
    }

    /// Sum of the original sizes of all entries.
    pub fn total_original_size(&self) -> (total: u64)
        requires
            sum_original(self@.entries) <= u64::MAX,
        ensures
            total == sum_original(self@.entries),
    {
        let ghost es = self@.entries;
        let mut total: u64 = 0;
        let mut i: usize = 0;
        assert(es.take(0) =~= Seq::<EntryModel>::empty());
        while i < self.entries.len()
            invariant
                es == self@.entries,
                es.len() == self.entries@.len(),
                i <= es.len(),
                sum_original(es) <= u64::MAX,
                total == sum_original(es.take(i as int)),
            decreases es.len() - i,
        {
            proof {
                lemma_prefix_step(es, i as int);
                lemma_sum_original_prefix(es, (i + 1) as int);
            }
            assert(es[i as int] == self.entries@[i as int]@);
            total = total + self.entries[i].original_size;
            i = i + 1;
        }
        assert(es.take(es.len() as int) =~= es);
        total
    }

    /// Sum of the stored sizes of all entries.
    pub fn total_compressed_size(&self) -> (total: u64)
        requires
            sum_compressed(self@.entries) <= u64::MAX,
        ensures
            total == sum_compressed(self@.entries),
    {
        let ghost es = self@.entries;
        let mut total: u64 = 0;
        let mut i: usize = 0;
        assert(es.take(0) =~= Seq::<EntryModel>::empty());
        while i < self.entries.len()
            invariant
                es == self@.entries,
                es.len() == self.entries@.len(),
                i <= es.len(),
                sum_compressed(es) <= u64::MAX,
                total == sum_compressed(es.take(i as int)),
            decreases es.len() - i,
        {
            proof {
                lemma_prefix_step(es, i as int);
                lemma_sum_compressed_prefix(es, (i + 1) as int);
            }
            assert(es[i as int] == self.entries@[i as int]@);
            total = total + self.entries[i].compressed_size;
            i = i + 1;
        }
        assert(es.take(es.len() as int) =~= es);
        total
    }

    /// Both totals, when each fits in 64 bits.
    pub fn checked_totals(&self) -> (res: Option<(u64, u64)>)
        ensures
            match res {
                Some((o, c)) => o == sum_original(self@.entries) && c == sum_compressed(self@.entries),
                None => sum_original(self@.entries) > u64::MAX || sum_compressed(self@.entries)
                    > u64::MAX,
            },
    {
        let ghost es = self@.entries;
        let mut orig: u128 = 0;
        let mut comp: u128 = 0;
        let mut i: usize = 0;
        assert(es.take(0) =~= Seq::<EntryModel>::empty());
        while i < self.entries.len()
            invariant
                es == self@.entries,
                es.len() == self.entries@.len(),
                i <= es.len(),
                orig == sum_original(es.take(i as int)),
                comp == sum_compressed(es.take(i as int)),
                orig <= i * 0xffff_ffff_ffff_ffffu128,
                comp <= i * 0xffff_ffff_ffff_ffffu128,
                i <= usize::MAX,
            decreases es.len() - i,
        {
            proof {
                lemma_prefix_step(es, i as int);
                lemma_sum_original_prefix(es, (i + 1) as int);
                lemma_sum_compressed_prefix(es, (i + 1) as int);
                assert(i + 1 <= 0xffff_ffff_ffff_ffffu128 + 1);
                assert((i + 1) * 0xffff_ffff_ffff_ffffu128 <= 0x1_0000_0000_0000_0000u128
                    * 0xffff_ffff_ffff_ffffu128) by (nonlinear_arith)
                    requires
                        i + 1 <= 0x1_0000_0000_0000_0000u128,
                ;
            }
            assert(es[i as int] == self.entries@[i as int]@);
            orig = orig + self.entries[i].original_size as u128;
            comp = comp + self.entries[i].compressed_size as u128;
            i = i + 1;
        }
        assert(es.take(es.len() as int) =~= es);
        if orig > 0xffff_ffff_ffff_ffffu128 || comp > 0xffff_ffff_ffff_ffffu128 {
            return None;
        }
        Some((orig as u64, comp as u64))
    }

    fn count_entries(&self, dirs: bool) -> (n: usize)
        ensures
            n == count_kind(self@.entries, dirs),
    {
        let ghost es = self@.entries;
        let mut n: usize = 0;
        let mut i: usize = 0;
        assert(es.take(0) =~= Seq::<EntryModel>::empty());
        while i < self.entries.len()
            invariant
                es == self@.entries,
                es.len() == self.entries@.len(),
                i <= es.len(),
                n == count_kind(es.take(i as int), dirs),
                n <= i,
            decreases es.len() - i,
        {
            proof {
                lemma_prefix_step(es, i as int);
            }
            assert(es[i as int] == self.entries@[i as int]@);
            if self.entries[i].is_directory == dirs {
                n = n + 1;
            }
            i = i + 1;
        }
        assert(es.take(es.len() as int) =~= es);
        n
    }

    /// Number of entries that are files.
    pub fn file_count(&self) -> (n: usize)
        ensures
            n == count_kind(self@.entries, false),
    {
        self.count_entries(false)
    }

    /// Number of entries that are directories.
    pub fn directory_count(&self) -> (n: usize)
        ensures
            n == count_kind(self@.entries, true),
    {
        self.count_entries(true)
    }
}

proof fn lemma_find_index_prefix(es: Seq<EntryModel>, path: Seq<char>, n: int)
    requires
        0 < n <= es.len(),
        find_index(es.take(n - 1), path) == -1,
        entry_at(es[n - 1], path),
    ensures
        find_index(es, path) == n - 1,
    decreases es.len(),
{
    if es.len() > n {
        assert(es.drop_last().take(n - 1) =~= es.take(n - 1));
        assert(es.drop_last()[n - 1] == es[n - 1]);
        lemma_find_index_prefix(es.drop_last(), path, n);
    } else {
        assert(es.drop_last() =~= es.take(n - 1));
    }
}

proof fn lemma_sum_original_prefix(es: Seq<EntryModel>, n: int)
    requires
        0 <= n <= es.len(),
    ensures
        sum_original(es.take(n)) <= sum_original(es),
    decreases es.len(),
{
    if es.len() > n {
        lemma_sum_original_prefix(es.drop_last(), n);
        assert(es.drop_last().take(n) =~= es.take(n));
    } else {
        assert(es.take(n) =~= es);
    }
}

proof fn lemma_sum_compressed_prefix(es: Seq<EntryModel>, n: int)
    requires
        0 <= n <= es.len(),
    ensures
        sum_compressed(es.take(n)) <= sum_compressed(es),
    decreases es.len(),
{
    if es.len() > n {
        lemma_sum_compressed_prefix(es.drop_last(), n);
        assert(es.drop_last().take(n) =~= es.take(n));
    } else {
        assert(es.take(n) =~= es);
    }
}

proof fn lemma_entries_check_prefix(es: Seq<EntryModel>, n: int)
    requires
        0 < n <= es.len(),
        entries_check(es.take(n - 1)) is Ok,
        entry_check(es[n - 1]) is Err,
    ensures
        entries_check(es) == entry_check(es[n - 1]),
    decreases es.len(),
{
    if es.len() > n {
        assert(es.drop_last().take(n - 1) =~= es.take(n - 1));
        assert(es.drop_last()[n - 1] == es[n - 1]);
        lemma_entries_check_prefix(es.drop_last(), n);
    } else {
        assert(es.drop_last() =~= es.take(n - 1));
    }
}

proof fn lemma_duplicate_prefix(es: Seq<EntryModel>, n: int)
    requires
        0 < n <= es.len(),
        duplicate_index(es.take(n)) == n - 1,
    ensures
        duplicate_index(es) == n - 1,
    decreases es.len(),
{
    if es.len() > n {
        assert(es.drop_last().take(n) =~= es.take(n));
        lemma_duplicate_prefix(es.drop_last(), n);
    } else {
        assert(es.take(n) =~= es);
    }
}

/// Some entry fails its own check.
pub open spec fn some_entry_fails(es: Seq<EntryModel>) -> bool {
    exists|k: int| 0 <= k < es.len() && #[trigger] entry_check(es[k]) is Err
}

/// Two entries, at different positions, have the same path (compared by
/// components).
pub open spec fn shares_path(es: Seq<EntryModel>) -> bool {
    exists|i: int, j: int|
        0 <= i < es.len() && 0 <= j < es.len() && i != j && #[trigger] entry_at(es[i], es[j].path)
}

proof fn lemma_entries_check_any(es: Seq<EntryModel>)
    ensures
        entries_check(es) is Err <==> some_entry_fails(es),
    decreases es.len(),
{
    if es.len() > 0 {
        let d = es.drop_last();
        lemma_entries_check_any(d);
        if some_entry_fails(d) {
            let k = choose|k: int| 0 <= k < d.len() && #[trigger] entry_check(d[k]) is Err;
            assert(es[k] == d[k]);
        }
        if some_entry_fails(es) {
            let k = choose|k: int| 0 <= k < es.len() && #[trigger] entry_check(es[k]) is Err;
            if k < d.len() {
                assert(d[k] == es[k]);
            }
        }
        assert(es.last() == es[es.len() - 1]);
    }
}

proof fn lemma_duplicate_any(es: Seq<EntryModel>)
    ensures
        -1 <= duplicate_index(es),
        duplicate_index(es) >= 0 <==> shares_path(es),
    decreases es.len(),
{
    if es.len() > 0 {
        let d = es.drop_last();
        let n = es.len() - 1;
        lemma_duplicate_any(d);
        if shares_path(d) {
            let (i, j) = choose|i: int, j: int|
                0 <= i < d.len() && 0 <= j < d.len() && i != j && #[trigger] entry_at(d[i], d[j].path);
            assert(es[i] == d[i] && es[j] == d[j]);
            assert(entry_at(es[i], es[j].path));
        }
        if exists|i: int| 0 <= i < es.len() - 1 && entry_at(es[i], es.last().path) {
            let i = choose|i: int| 0 <= i < es.len() - 1 && entry_at(es[i], es.last().path);
            assert(entry_at(es[i], es[n].path));
        }
        if shares_path(es) {
            let (i, j) = choose|i: int, j: int|
                0 <= i < es.len() && 0 <= j < es.len() && i != j && #[trigger] entry_at(es[i], es[j].path);
            if i < n && j < n {
                assert(d[i] == es[i] && d[j] == es[j]);
                assert(entry_at(d[i], d[j].path));
            } else if j == n {
                assert(entry_at(es[i], es.last().path));
            } else {
                assert(entry_at(es[j], es.last().path));
            }
        }
    }
}

/// Two positions that hold the same value count it twice.
proof fn lemma_count_twice(es: Seq<EntryModel>, i: int, j: int)
    requires
        0 <= i < es.len(),
        0 <= j < es.len(),
        i != j,
        es[i] == es[j],
    ensures
        es.to_multiset().count(es[i]) >= 2,
{
    broadcast use vstd::seq_lib::group_to_multiset_ensures;

    let r = es.remove(i);
    let jj = if j < i { j } else { j - 1 };
    assert(r[jj] == es[j]);
    assert(r.contains(es[i]));
    vstd::seq_lib::to_multiset_remove(es, i);
    assert(r.to_multiset().count(es[i]) > 0);
    assert(es.to_multiset().remove(es[i]).count(es[i]) == es.to_multiset().count(es[i]) - 1) by {
        broadcast use vstd::multiset::group_multiset_axioms;
    }
}

/// A value counted twice stands at two positions.
proof fn lemma_twice_at(es: Seq<EntryModel>, x: EntryModel)
    requires
        es.to_multiset().count(x) >= 2,
    ensures
        exists|i: int, j: int| 0 <= i < es.len() && 0 <= j < es.len() && i != j && es[i] == x && es[j] == x,
{
    broadcast use vstd::seq_lib::group_to_multiset_ensures;

    assert(es.contains(x));
    let i = choose|i: int| 0 <= i < es.len() && es[i] == x;
    let r = es.remove(i);
    vstd::seq_lib::to_multiset_remove(es, i);
    assert(es.to_multiset().remove(x).count(x) == es.to_multiset().count(x) - 1) by {
        broadcast use vstd::multiset::group_multiset_axioms;
    }
    assert(r.to_multiset().count(x) >= 1);
    assert(r.contains(x));
    let jj = choose|jj: int| 0 <= jj < r.len() && r[jj] == x;
    let j = if jj < i { jj } else { jj + 1 };
    assert(es[j] == r[jj]);
}

proof fn lemma_shares_path_moved(es1: Seq<EntryModel>, es2: Seq<EntryModel>)
    requires
        es1.to_multiset() == es2.to_multiset(),
        shares_path(es1),
    ensures
        shares_path(es2),
{
    broadcast use vstd::seq_lib::group_to_multiset_ensures;

    let (i, j) = choose|i: int, j: int|
        0 <= i < es1.len() && 0 <= j < es1.len() && i != j && #[trigger] entry_at(es1[i], es1[j].path);
    let x = es1[i];
    let y = es1[j];
    if x == y {
        lemma_count_twice(es1, i, j);
        lemma_twice_at(es2, x);
        let (a, b) = choose|a: int, b: int|
            0 <= a < es2.len() && 0 <= b < es2.len() && a != b && es2[a] == x && es2[b] == x;
        assert(entry_at(es2[a], es2[b].path));
    } else {
        assert(es1.contains(x) && es1.contains(y));
        assert(es2.to_multiset().count(x) > 0 && es2.to_multiset().count(y) > 0);
        assert(es2.contains(x) && es2.contains(y));
        let a = choose|a: int| 0 <= a < es2.len() && es2[a] == x;
        let b = choose|b: int| 0 <= b < es2.len() && es2[b] == y;
        assert(entry_at(es2[a], es2[b].path));
    }
}

proof fn lemma_fails_moved(es1: Seq<EntryModel>, es2: Seq<EntryModel>)
    requires
        es1.to_multiset() == es2.to_multiset(),
        some_entry_fails(es1),
    ensures
        some_entry_fails(es2),
{
    broadcast use vstd::seq_lib::group_to_multiset_ensures;

    let k = choose|k: int| 0 <= k < es1.len() && #[trigger] entry_check(es1[k]) is Err;
    let x = es1[k];
    assert(es1.contains(x));
    assert(es2.to_multiset().count(x) > 0);
    assert(es2.contains(x));
    let a = choose|a: int| 0 <= a < es2.len() && es2[a] == x;
    assert(entry_check(es2[a]) is Err);
}

/// The checks of `validate` pass on a sequence of entries exactly when they
/// pass on any reordering of it: no entry fails its own check and no two
/// share a path.
pub proof fn lemma_check_by_contents(es1: Seq<EntryModel>, es2: Seq<EntryModel>)
    requires
        es1.to_multiset() == es2.to_multiset(),
    ensures
        -1 <= duplicate_index(es1),
        metadata_check_ok(es1) <==> !some_entry_fails(es2) && !shares_path(es2),
{
    lemma_entries_check_any(es1);
    lemma_duplicate_any(es1);
    if some_entry_fails(es1) {
        lemma_fails_moved(es1, es2);
    }
    if some_entry_fails(es2) {
        lemma_fails_moved(es2, es1);
    }
    if shares_path(es1) {
        lemma_shares_path_moved(es1, es2);
    }
    if shares_path(es2) {
        lemma_shares_path_moved(es2, es1);
    }
}

/// What `ArchiveMetadata::validate` decides: the first entry that fails its
/// own check, else the first entry whose path repeats an earlier one.
pub open spec fn metadata_check_ok(es: Seq<EntryModel>) -> bool {
    entries_check(es) is Ok && duplicate_index(es) == -1
}

impl ArchiveMetadata {
    /// Checks every entry in order, then that no two entries have the same
    /// path (compared by components).
    pub fn validate(&self) -> (res: RzxResult<()>)
        ensures
            match entries_check(self@.entries) {
                Err(c) => res matches Err(RzxError::CorruptedArchive(c2)) && c2 == c,
                Ok(_) => {
                    let j = duplicate_index(self@.entries);
                    if j >= 0 {
                        res matches Err(RzxError::CorruptedArchive(Corruption::DuplicatePath(p)))
                            && p@ == self@.entries[j].path
                    } else {
                        res is Ok
                    }
                },
            },
    {
        let ghost es = self@.entries;
        let n = self.entries.len();
        let mut i: usize = 0;
        assert(es.take(0) =~= Seq::<EntryModel>::empty());
        while i < n
            invariant
                es == self@.entries,
                es.len() == n,
                n == self.entries@.len(),
                i <= n,
                entries_check(es.take(i as int)) is Ok,
            decreases n - i,
        {
            proof {
                lemma_prefix_step(es, i as int);
            }
            assert(es[i as int] == self.entries@[i as int]@);
            match self.entries[i].validate() {
                Ok(()) => {},
                Err(e) => {
                    proof {
                        lemma_entries_check_prefix(es, (i + 1) as int);
                    }
                    return Err(e);
                },
            }
            i = i + 1;
        }
        assert(es.take(n as int) =~= es);
        let mut j: usize = 0;
        while j < n
            invariant
                es == self@.entries,
                es.len() == n,
                n == self.entries@.len(),
                j <= n,
                entries_check(es) is Ok,
                duplicate_index(es.take(j as int)) == -1,
            decreases n - j,
        {
            proof {
                lemma_prefix_step(es, j as int);
            }
            let mut k: usize = 0;
            while k < j
                invariant
                    es == self@.entries,
                    es.len() == n,
                    n == self.entries@.len(),
                    k <= j < n,
                    forall|q: int| 0 <= q < k ==> !entry_at(es[q], es[j as int].path),
                    entries_check(es) is Ok,
                    duplicate_index(es.take(j as int)) == -1,
                    es.take(j + 1).drop_last() == es.take(j as int),
                    es.take(j + 1).last() == es[j as int],
                decreases j - k,
            {
                assert(es[k as int] == self.entries@[k as int]@);
                assert(es[j as int] == self.entries@[j as int]@);
                if path_eq(self.entries[k].path.as_str(), self.entries[j].path.as_str()) {
                    proof {
                        let t = es.take(j + 1);
                        assert(t[k as int] == es[k as int]);
                        assert(entry_at(t[k as int], t.last().path));
                        assert(duplicate_index(t) == j);
                        lemma_duplicate_prefix(es, (j + 1) as int);
                    }
                    return Err(
                        RzxError::CorruptedArchive(
                            Corruption::DuplicatePath(self.entries[j].path.clone()),
                        ),
                    );
                }
                k = k + 1;
            }
            proof {
                let t = es.take(j + 1);
                assert forall|q: int| 0 <= q < t.len() - 1 implies !entry_at(t[q], t.last().path) by {
                    assert(t[q] == es[q]);
                }
            }
            j = j + 1;
        }
        assert(es.take(n as int) =~= es);
        Ok(())
    }

    /// Encodes the metadata; times before the Unix epoch have no encoding.
    pub fn to_bytes(&self) -> (res: RzxResult<Vec<u8>>)
        ensures
            match res {
                Ok(b) => metadata_encodable(self@) && b@ == enc_metadata(self@) && metadata_bounded(self@),
                Err(e) => !metadata_encodable(self@) && e == RzxError::Serialization(FormatError::TimeBeforeEpoch),
            },
    {
        if !is_encodable(self) {
            return Err(RzxError::Serialization(FormatError::TimeBeforeEpoch));
        }
        Ok(encode_metadata(self))
    }

    /// Decodes metadata from the front of `bytes` (later bytes are ignored).
    pub fn from_bytes(bytes: &[u8]) -> (res: RzxResult<Self>)
        ensures
            match dec_metadata(bytes@) {
                Ok((m, _)) => res matches Ok(r) && r@ == m,
                Err(e) => res matches Err(RzxError::Serialization(e2)) && e2 == e,
            },
    {
        match decode_metadata(bytes) {
            Ok(m) => Ok(m),
            Err(e) => Err(RzxError::Serialization(e)),
        }
    }
}

/// The order in which `sort_entries` arranges entries: directories first,
/// then by path (compared by components).
pub open spec fn entry_order(a: EntryModel, b: EntryModel) -> int {
    if a.is_directory && !b.is_directory {
        -1
    } else if !a.is_directory && b.is_directory {
        1
    } else {
        path_order(encode_utf8(a.path), encode_utf8(b.path))
    }
}

/// Entries in `entry_order`.
pub open spec fn entries_sorted(es: Seq<EntryModel>) -> bool {
    forall|i: int, j: int| 0 <= i < j < es.len() ==> entry_order(#[trigger] es[i], #[trigger] es[j]) <= 0
}

/// What sorted entries look like: every directory comes before every
/// file, and entries of the same kind come in ascending path order
/// (compared by components).
pub proof fn lemma_sorted_layout(es: Seq<EntryModel>, i: int, j: int)
    requires
        entries_sorted(es),
        0 <= i < j < es.len(),
    ensures
        es[j].is_directory ==> es[i].is_directory,
        es[i].is_directory == es[j].is_directory ==> path_order(encode_utf8(es[i].path), encode_utf8(es[j].path))
            <= 0,
{
    assert(entry_order(es[i], es[j]) <= 0);
}

/// `entry_order` is a total preorder.
pub proof fn lemma_entry_order(a: EntryModel, b: EntryModel, c: EntryModel)
    ensures
        entry_order(a, b) == -entry_order(b, a),
        entry_order(a, b) <= 0 && entry_order(b, c) <= 0 ==> entry_order(a, c) <= 0,
{
    lemma_path_order(encode_utf8(a.path), encode_utf8(b.path), encode_utf8(c.path));
    lemma_path_order(encode_utf8(b.path), encode_utf8(a.path), encode_utf8(c.path));
    lemma_path_order(encode_utf8(a.path), encode_utf8(c.path), encode_utf8(b.path));
}

/// The entries that order the same as `x`, in their order in `es`.
pub open spec fn key_class(es: Seq<EntryModel>, x: EntryModel) -> Seq<EntryModel> {
    es.filter(|y: EntryModel| entry_order(y, x) == 0)
}

/// Entries that order the same as a third order the same as each other.
proof fn lemma_same_order(a: EntryModel, b: EntryModel, z: EntryModel)
    requires
        entry_order(a, z) == 0,
        entry_order(b, z) == 0,
    ensures
        entry_order(a, b) == 0,
{
    lemma_path_order(encode_utf8(a.path), encode_utf8(z.path), encode_utf8(b.path));
    lemma_path_order(encode_utf8(b.path), encode_utf8(z.path), encode_utf8(a.path));
    lemma_path_order(encode_utf8(a.path), encode_utf8(b.path), encode_utf8(z.path));
}

proof fn lemma_filter_none(b: Seq<EntryModel>, pred: spec_fn(EntryModel) -> bool)
    requires
        forall|k: int| 0 <= k < b.len() ==> !pred(#[trigger] b[k]),
    ensures
        b.filter(pred) == Seq::<EntryModel>::empty(),
{
    broadcast use vstd::seq_lib::group_filter_ensures;

    if b.filter(pred).len() > 0 {
        let e = b.filter(pred)[0];
        assert(pred(e));
        assert(b.filter(pred).contains(e));
        b.lemma_filter_contains_rev(pred, e);
        let k = choose|k: int| 0 <= k < b.len() && b[k] == e;
        assert(!pred(b[k]));
    }
    assert(b.filter(pred) =~= Seq::<EntryModel>::empty());
}

proof fn lemma_filter_single(x: EntryModel, pred: spec_fn(EntryModel) -> bool)
    ensures
        seq![x].filter(pred) == (if pred(x) {
            seq![x]
        } else {
            Seq::<EntryModel>::empty()
        }),
{
    reveal(Seq::filter);
    assert(seq![x].drop_last() =~= Seq::<EntryModel>::empty());
    assert(Seq::<EntryModel>::empty().filter(pred) =~= Seq::<EntryModel>::empty());
    assert(Seq::<EntryModel>::empty().push(x) =~= seq![x]);
}

/// Moving `x` in front of entries that all order after it keeps, for every
/// entry, the order of the entries that order the same as it.
proof fn lemma_move_keeps_classes(a: Seq<EntryModel>, b: Seq<EntryModel>, c: Seq<EntryModel>, x: EntryModel, z: EntryModel)
    requires
        forall|k: int| 0 <= k < b.len() ==> entry_order(#[trigger] b[k], x) > 0,
    ensures
        key_class(a + seq![x] + b + c, z) == key_class(a + b + seq![x] + c, z),
{
    let pred = |y: EntryModel| entry_order(y, z) == 0;
    Seq::filter_distributes_over_add(a + seq![x] + b, c, pred);
    Seq::filter_distributes_over_add(a + seq![x], b, pred);
    Seq::filter_distributes_over_add(a, seq![x], pred);
    Seq::filter_distributes_over_add(a + b + seq![x], c, pred);
    Seq::filter_distributes_over_add(a + b, seq![x], pred);
    Seq::filter_distributes_over_add(a, b, pred);
    lemma_filter_single(x, pred);
    if pred(x) {
        assert forall|k: int| 0 <= k < b.len() implies !pred(#[trigger] b[k]) by {
            if pred(b[k]) {
                lemma_same_order(b[k], x, z);
            }
        }
        lemma_filter_none(b, pred);
        assert(a.filter(pred) + seq![x] + Seq::<EntryModel>::empty() + c.filter(pred)
            =~= a.filter(pred) + Seq::<EntryModel>::empty() + seq![x] + c.filter(pred));
    } else {
        assert(a.filter(pred) + Seq::<EntryModel>::empty() + b.filter(pred) + c.filter(pred)
            =~= a.filter(pred) + b.filter(pred) + Seq::<EntryModel>::empty() + c.filter(pred));
    }
}

fn compare_entries(a: &FileEntry, b: &FileEntry) -> (r: i8)
    ensures
        r == entry_order(a@, b@),
{
    if a.is_directory && !b.is_directory {
        -1
    } else if !a.is_directory && b.is_directory {
        1
    } else {
        path_compare(a.path.as_str(), b.path.as_str())
    }
}

impl ArchiveMetadata {
    /// Sorts the entries: directories first, then by path. The sort is
    /// stable: entries that order the same keep their order.
    pub fn sort_entries(&mut self)
        ensures
            entries_sorted(final(self)@.entries),
            final(self)@.entries.to_multiset() == old(self)@.entries.to_multiset(),
            forall|x: EntryModel| #[trigger] key_class(final(self)@.entries, x) == key_class(old(self)@.entries, x),
            final(self)@ == (MetadataModel { entries: final(self)@.entries, ..old(self)@ }),
    {
        broadcast use vstd::seq_lib::group_to_multiset_ensures;

        let ghost orig = self@.entries;
        let n = self.entries.len();
        if n < 2 {
            assert(entries_sorted(orig));
            return;
        }
        let mut i: usize = 1;
        while i < n
            invariant
                1 <= i <= n,
                n == self.entries@.len(),
                entries_view(self.entries@).to_multiset() == orig.to_multiset(),
                forall|x: EntryModel| #[trigger] key_class(entries_view(self.entries@), x) == key_class(orig, x),
                entries_sorted(entries_view(self.entries@).take(i as int)),
                self.comment == old(self).comment,
                self.creator == old(self).creator,
                self.created_at == old(self).created_at,
                self.modified_at == old(self).modified_at,
                self.custom_fields == old(self).custom_fields,
                orig == old(self)@.entries,
            decreases n - i,
        {
            let ghost s = entries_view(self.entries@);
            let x = self.entries.remove(i);
            let ghost r = entries_view(self.entries@);
            assert(r =~= s.remove(i as int));
            assert(x@ == s[i as int]);
            let mut j = i;
            while j > 0 && compare_entries(&self.entries[j - 1], &x) > 0
                invariant
                    0 <= j <= i,
                    i < n,
                    self.entries@.len() == n - 1,
                    r == entries_view(self.entries@),
                    entries_sorted(r.take(i as int)),
                    forall|k: int| j <= k < i ==> entry_order(#[trigger] r[k], x@) > 0,
                decreases j,
            {
                j = j - 1;
            }
            let ghost xv = x@;
            self.entries.insert(j, x);
            let ghost t = entries_view(self.entries@);
            assert(t =~= r.insert(j as int, xv));
            proof {
                let a = s.take(j as int);
                let b = s.subrange(j as int, i as int);
                let c = s.skip(i + 1);
                assert(t =~= a + seq![xv] + b + c);
                assert(s =~= a + b + seq![xv] + c);
                assert forall|k: int| 0 <= k < b.len() implies entry_order(#[trigger] b[k], xv) > 0 by {
                    assert(b[k] == r[j + k]);
                }
                assert forall|z: EntryModel| #[trigger] key_class(t, z) == key_class(orig, z) by {
                    lemma_move_keeps_classes(a, b, c, xv, z);
                }
            }
            proof {
                assert(s.remove(i as int).insert(j as int, xv).to_multiset() =~= s.to_multiset()) by {
                    broadcast use vstd::multiset::group_multiset_axioms;

                    vstd::seq_lib::to_multiset_remove(s, i as int);
                    vstd::seq_lib::to_multiset_insert(s.remove(i as int), j as int, xv);
                    vstd::seq_lib::to_multiset_contains(s, xv);
                    assert(s.contains(xv)) by {
                        assert(s[i as int] == xv);
                    }
                    assert(s.to_multiset().remove(xv).insert(xv) =~= s.to_multiset());
                }
                let p = t.take(i + 1);
                assert forall|a: int, b: int| 0 <= a < b < p.len() implies entry_order(
                    #[trigger] p[a],
                    #[trigger] p[b],
                ) <= 0 by {
                    if b < j {
                        assert(p[a] == r[a] && p[b] == r[b]);
                        assert(r.take(i as int)[a] == r[a] && r.take(i as int)[b] == r[b]);
                    } else if b == j {
                        assert(p[a] == r[a] && p[b] == xv);
                        assert(j > 0);
                        assert(entry_order(r[j - 1], xv) <= 0);
                        if a < j - 1 {
                            assert(r.take(i as int)[a] == r[a] && r.take(i as int)[j - 1] == r[j
                                - 1]);
                            lemma_entry_order(r[a], r[j - 1], xv);
                        }
                    } else if a == j {
                        assert(p[a] == xv && p[b] == r[b - 1]);
                        assert(entry_order(r[b - 1], xv) > 0);
                        lemma_entry_order(xv, r[b - 1], xv);
                    } else if a < j {
                        assert(p[a] == r[a] && p[b] == r[b - 1]);
                        assert(r.take(i as int)[a] == r[a] && r.take(i as int)[b - 1] == r[b
                            - 1]);
                    } else {
                        assert(p[a] == r[a - 1] && p[b] == r[b - 1]);
                        assert(r.take(i as int)[a - 1] == r[a - 1] && r.take(i as int)[b - 1]
                            == r[b - 1]);
                    }
                }
            }
            i = i + 1;
        }
        assert(entries_view(self.entries@).take(n as int) =~= entries_view(self.entries@));
    }
}

impl Default for ArchiveMetadata {
    fn default() -> (m: Self)
        ensures
            m@.entries.len() == 0,
            m@.comment is None,
            m@.creator == "rzx-compressor v0.1.0"@,
            m@.created_at == m@.modified_at,
            m@.custom_fields.len() == 0,
    {
        Self::new()
    }
}

} // verus!
