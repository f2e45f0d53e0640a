//! Encoding of archive metadata: entries in order, then the comment, the
//! creator, the two time stamps and the custom fields. Times are seconds and
//! nanoseconds since the Unix epoch; keyed fields are a count and the
//! key/value pairs; enum values are `u32` variant indices.
use vstd::prelude::*;
use vstd::utf8::encode_utf8;
use crate::rzx_core::codec::{
    get_bool, get_bytes, get_tag, get_text, get_u32, get_u64, lemma_skip_skip, read_matches,
    put_bool, put_text, put_bytes, put_u32, put_u64,
    Decoded, FormatError, dec_bool, dec_bytes, dec_tag, dec_text, dec_u32, dec_u64, enc_bool,
    enc_bytes, enc_tag, enc_text, enc_u32, enc_u64, lemma_assoc, lemma_bool_roundtrip,
    lemma_bytes_roundtrip, lemma_skip_prefix, lemma_text_roundtrip, lemma_u32_roundtrip,
    lemma_u64_roundtrip,
};
use crate::rzx_core::metadata::{
    ArchiveMetadata, EntryModel, FileEntry, MetadataModel, Time, Timestamp, attrs_view,
    entries_view, fields_view, opt_text_view,
};
use crate::rzx_core::{CompressionAlgorithm, FileType};

verus! {



pub open spec fn nanos_per_sec() -> int {
    1_000_000_000
}

// ---------------------------------------------------------------- keyed lists

/// Index of the last pair with key `k`, or -1.
pub open spec fn key_index<V>(s: Seq<(Seq<char>, V)>, k: Seq<char>) -> int
    decreases s.len(),
{
    if s.len() == 0 {
        -1
    } else if s.last().0 == k {
        s.len() - 1
    } else {
        key_index(s.drop_last(), k)
    }
}

/// Map insertion: replaces the value of `k` if present, else appends.
pub open spec fn key_insert<V>(s: Seq<(Seq<char>, V)>, k: Seq<char>, v: V) -> Seq<(Seq<char>, V)> {
    let i = key_index(s, k);
    if i >= 0 {
        s.update(i, (k, v))
    } else {
        s.push((k, v))
    }
}

pub open spec fn keys_distinct<V>(s: Seq<(Seq<char>, V)>) -> bool {
    forall|i: int, j: int| 0 <= i < j < s.len() ==> s[i].0 != s[j].0
}

/// A key that no pair has is found nowhere.
pub proof fn lemma_key_index_absent<V>(s: Seq<(Seq<char>, V)>, k: Seq<char>)
    requires
        forall|i: int| 0 <= i < s.len() ==> s[i].0 != k,
    ensures
        key_index(s, k) == -1,
    decreases s.len(),
{
    if s.len() > 0 {
        lemma_key_index_absent(s.drop_last(), k);
    }
}

/// Where a key is found, a pair has it.
pub proof fn lemma_key_index_bounds<V>(s: Seq<(Seq<char>, V)>, k: Seq<char>)
    ensures
        -1 <= key_index(s, k) < s.len(),
        key_index(s, k) >= 0 ==> s[key_index(s, k)].0 == k,
        key_index(s, k) == -1 ==> forall|i: int| 0 <= i < s.len() ==> s[i].0 != k,
    decreases s.len(),
{
    if s.len() > 0 {
        lemma_key_index_bounds(s.drop_last(), k);
        if s.last().0 != k {
            assert forall|i: int| 0 <= i < s.len() && key_index(s, k) == -1 implies s[i].0 != k by {
                if i < s.len() - 1 {
                    assert(s.drop_last()[i] == s[i]);
                }
            }
        }
    }
}

/// Inserting into a keyed list behaves as a map: pairs with other keys stay
/// where they were, the key then holds the new value, the keys stay
/// distinct, and the list grows only when the key was new.
pub proof fn lemma_key_insert<V>(s: Seq<(Seq<char>, V)>, k: Seq<char>, v: V)
    requires
        keys_distinct(s),
    ensures
        keys_distinct(key_insert(s, k, v)),
        forall|i: int| 0 <= i < s.len() && s[i].0 != k ==> #[trigger] key_insert(s, k, v)[i] == s[i],
        exists|j: int| 0 <= j < key_insert(s, k, v).len() && key_insert(s, k, v)[j] == (k, v),
        key_insert(s, k, v).len() == s.len() + (if exists|i: int| 0 <= i < s.len() && s[i].0 == k {
            0int
        } else {
            1int
        }),
{
    lemma_key_index_bounds(s, k);
    let r = key_insert(s, k, v);
    let i0 = key_index(s, k);
    if i0 >= 0 {
        assert(r[i0] == (k, v));
    } else {
        assert(r[s.len() as int] == (k, v));
        assert(!exists|i: int| 0 <= i < s.len() && s[i].0 == k);
    }
}

// ---------------------------------------------------------------- encoding

pub open spec fn enc_time(t: Time) -> Seq<u8> {
    match t {
        Time::SinceEpoch(ts) => enc_u64(ts.secs) + enc_u32(ts.nanos),
        Time::BeforeEpoch => Seq::empty(),
    }
}

pub open spec fn enc_opt_time(o: Option<Time>) -> Seq<u8> {
    match o {
        None => enc_tag(false),
        Some(t) => enc_tag(true) + enc_time(t),
    }
}

pub open spec fn compression_index(a: CompressionAlgorithm) -> u32 {
    match a {
        CompressionAlgorithm::NoCompression => 0,
        CompressionAlgorithm::Deflate => 1,
        CompressionAlgorithm::Lzma => 2,
        CompressionAlgorithm::Zstd => 3,
    }
}

pub open spec fn file_type_index(t: FileType) -> u32 {
    match t {
        FileType::Text => 0,
        FileType::Binary => 1,
        FileType::Image => 2,
        FileType::Audio => 3,
        FileType::Video => 4,
        FileType::Archive => 5,
        FileType::Document => 6,
        FileType::Unknown => 7,
    }
}

pub open spec fn enc_attr_list(s: Seq<(Seq<char>, Seq<u8>)>) -> Seq<u8>
    decreases s.len(),
{
    if s.len() == 0 {
        Seq::empty()
    } else {
        enc_attr_list(s.drop_last()) + (enc_text(s.last().0) + enc_bytes(s.last().1))
    }
}

pub open spec fn enc_attrs(s: Seq<(Seq<char>, Seq<u8>)>) -> Seq<u8> {
    enc_u64(s.len() as u64) + enc_attr_list(s)
}

pub open spec fn enc_field_list(s: Seq<(Seq<char>, Seq<char>)>) -> Seq<u8>
    decreases s.len(),
{
    if s.len() == 0 {
        Seq::empty()
    } else {
        enc_field_list(s.drop_last()) + (enc_text(s.last().0) + enc_text(s.last().1))
    }
}

pub open spec fn enc_fields(s: Seq<(Seq<char>, Seq<char>)>) -> Seq<u8> {
    enc_u64(s.len() as u64) + enc_field_list(s)
}

/// The encoding of a file entry.
pub open spec fn enc_entry(e: EntryModel) -> Seq<u8> {
    enc_text(e.path) + (enc_u64(e.original_size) + (enc_u64(e.compressed_size) + (enc_u32(
        compression_index(e.compression),
    ) + (enc_u32(file_type_index(e.file_type)) + (enc_u64(e.data_offset) + (enc_u32(e.checksum)
        + (enc_u32(e.permissions) + (enc_opt_time(e.created) + (enc_opt_time(e.modified) + (
    enc_opt_time(e.accessed) + (enc_bool(e.is_directory) + enc_attrs(e.extended_attrs))))))))))))
}

pub open spec fn enc_entry_list(s: Seq<EntryModel>) -> Seq<u8>
    decreases s.len(),
{
    if s.len() == 0 {
        Seq::empty()
    } else {
        enc_entry_list(s.drop_last()) + enc_entry(s.last())
    }
}

pub open spec fn enc_opt_text(o: Option<Seq<char>>) -> Seq<u8> {
    match o {
        None => enc_tag(false),
        Some(s) => enc_tag(true) + enc_text(s),
    }
}

/// The encoding of archive metadata.
pub open spec fn enc_metadata(m: MetadataModel) -> Seq<u8> {
    (enc_u64(m.entries.len() as u64) + enc_entry_list(m.entries)) + (enc_opt_text(m.comment) + (
    enc_text(m.creator) + (enc_time(m.created_at) + (enc_time(m.modified_at) + enc_fields(
        m.custom_fields,
    )))))
}

proof fn lemma_entry_list_len_remove(s: Seq<EntryModel>, j: int)
    requires
        0 <= j < s.len(),
    ensures
        enc_entry_list(s).len() == enc_entry_list(s.remove(j)).len() + enc_entry(s[j]).len(),
    decreases s.len(),
{
    if j == s.len() - 1 {
        assert(s.remove(j) =~= s.drop_last());
    } else {
        let d = s.drop_last();
        lemma_entry_list_len_remove(d, j);
        assert(s.remove(j).drop_last() =~= d.remove(j));
        assert(s.remove(j).last() == s.last());
        assert(d[j] == s[j]);
    }
}

/// The encoding of a list of entries is as long in any order.
pub proof fn lemma_entry_list_len_by_contents(s1: Seq<EntryModel>, s2: Seq<EntryModel>)
    requires
        s1.to_multiset() == s2.to_multiset(),
    ensures
        s1.len() == s2.len(),
        enc_entry_list(s1).len() == enc_entry_list(s2).len(),
    decreases s1.len(),
{
    broadcast use vstd::seq_lib::group_to_multiset_ensures;

    vstd::seq_lib::to_multiset_len(s1);
    vstd::seq_lib::to_multiset_len(s2);
    if s1.len() > 0 {
        let x = s1.last();
        assert(s1.drop_last().push(x) =~= s1);
        assert(s1.contains(x));
        assert(s2.to_multiset().count(x) > 0);
        assert(s2.contains(x));
        let j = choose|j: int| 0 <= j < s2.len() && s2[j] == x;
        vstd::seq_lib::to_multiset_remove(s2, j);
        assert(s1.drop_last().to_multiset() =~= s2.remove(j).to_multiset()) by {
            broadcast use vstd::multiset::group_multiset_axioms;
        }
        lemma_entry_list_len_by_contents(s1.drop_last(), s2.remove(j));
        lemma_entry_list_len_remove(s2, j);
        assert(enc_entry_list(s1).len() == enc_entry_list(s1.drop_last()).len() + enc_entry(x).len());
    } else {
        assert(s1 =~= Seq::<EntryModel>::empty());
        assert(s2 =~= Seq::<EntryModel>::empty());
    }
}

// ---------------------------------------------------------------- decoding

/// A time stamp: seconds and nanoseconds, normalized so that the
/// nanoseconds are under a second; it must fit the system clock, whose
/// seconds are a signed 64-bit number.
pub open spec fn dec_time(b: Seq<u8>) -> Decoded<Time> {
    match dec_u64(b) {
        Err(e) => Err(e),
        Ok((secs, n1)) => match dec_u32(b.skip(n1)) {
            Err(e) => Err(e),
            Ok((nanos, n2)) => {
                let total: int = secs as int + (nanos as int) / nanos_per_sec();
                if total > u64::MAX || total > i64::MAX {
                    Err(FormatError::TimeOverflow)
                } else {
                    Ok(
                        (
                            Time::SinceEpoch(
                                Timestamp {
                                    secs: total as u64,
                                    nanos: ((nanos as int) % nanos_per_sec()) as u32,
                                },
                            ),
                            n1 + n2,
                        ),
                    )
                }
            },
        },
    }
}

pub open spec fn dec_opt_time(b: Seq<u8>) -> Decoded<Option<Time>> {
    match dec_tag(b) {
        Err(e) => Err(e),
        Ok((present, n)) => if !present {
            Ok((None, n))
        } else {
            match dec_time(b.skip(n)) {
                Err(e) => Err(e),
                Ok((t, m)) => Ok((Some(t), n + m)),
            }
        },
    }
}

pub open spec fn dec_compression(b: Seq<u8>) -> Decoded<CompressionAlgorithm> {
    match dec_u32(b) {
        Err(e) => Err(e),
        Ok((i, n)) => if i == 0 {
            Ok((CompressionAlgorithm::NoCompression, n))
        } else if i == 1 {
            Ok((CompressionAlgorithm::Deflate, n))
        } else if i == 2 {
            Ok((CompressionAlgorithm::Lzma, n))
        } else if i == 3 {
            Ok((CompressionAlgorithm::Zstd, n))
        } else {
            Err(FormatError::InvalidVariant(i))
        },
    }
}

pub open spec fn file_type_of_index(i: u32) -> FileType {
    if i == 0 {
        FileType::Text
    } else if i == 1 {
        FileType::Binary
    } else if i == 2 {
        FileType::Image
    } else if i == 3 {
        FileType::Audio
    } else if i == 4 {
        FileType::Video
    } else if i == 5 {
        FileType::Archive
    } else if i == 6 {
        FileType::Document
    } else {
        FileType::Unknown
    }
}

pub open spec fn dec_file_type(b: Seq<u8>) -> Decoded<FileType> {
    match dec_u32(b) {
        Err(e) => Err(e),
        Ok((i, n)) => if i < 8 {
            Ok((file_type_of_index(i), n))
        } else {
            Err(FormatError::InvalidVariant(i))
        },
    }
}

/// The codes of the compression algorithms in an encoded entry are their
/// variant indices, 0 for none, 1 for DEFLATE, 2 for LZMA and 3 for
/// Zstandard; each code reads back as its algorithm, and no other code
/// reads back at all.
pub proof fn lemma_compression_codes(rest: Seq<u8>, i: u32)
    ensures
        compression_index(CompressionAlgorithm::NoCompression) == 0,
        compression_index(CompressionAlgorithm::Deflate) == 1,
        compression_index(CompressionAlgorithm::Lzma) == 2,
        compression_index(CompressionAlgorithm::Zstd) == 3,
        dec_compression(enc_u32(0) + rest) == Ok::<(CompressionAlgorithm, int), FormatError>(
            (CompressionAlgorithm::NoCompression, 4),
        ),
        dec_compression(enc_u32(1) + rest) == Ok::<(CompressionAlgorithm, int), FormatError>(
            (CompressionAlgorithm::Deflate, 4),
        ),
        dec_compression(enc_u32(2) + rest) == Ok::<(CompressionAlgorithm, int), FormatError>(
            (CompressionAlgorithm::Lzma, 4),
        ),
        dec_compression(enc_u32(3) + rest) == Ok::<(CompressionAlgorithm, int), FormatError>(
            (CompressionAlgorithm::Zstd, 4),
        ),
        i > 3 ==> dec_compression(enc_u32(i) + rest) == Err::<(CompressionAlgorithm, int), FormatError>(
            FormatError::InvalidVariant(i),
        ),
{
    lemma_u32_roundtrip(0, rest);
    lemma_u32_roundtrip(1, rest);
    lemma_u32_roundtrip(2, rest);
    lemma_u32_roundtrip(3, rest);
    lemma_u32_roundtrip(i, rest);
}

/// The codes of the file types in an encoded entry are their variant
/// indices in the order text, binary, image, audio, video, archive,
/// document, unknown (0 to 7); each reads back as its type, and no other
/// code reads back at all.
pub proof fn lemma_file_type_codes(rest: Seq<u8>, i: u32)
    ensures
        file_type_index(FileType::Text) == 0,
        file_type_index(FileType::Binary) == 1,
        file_type_index(FileType::Image) == 2,
        file_type_index(FileType::Audio) == 3,
        file_type_index(FileType::Video) == 4,
        file_type_index(FileType::Archive) == 5,
        file_type_index(FileType::Document) == 6,
        file_type_index(FileType::Unknown) == 7,
        dec_file_type(enc_u32(0) + rest) == Ok::<(FileType, int), FormatError>((FileType::Text, 4)),
        dec_file_type(enc_u32(1) + rest) == Ok::<(FileType, int), FormatError>((FileType::Binary, 4)),
        dec_file_type(enc_u32(2) + rest) == Ok::<(FileType, int), FormatError>((FileType::Image, 4)),
        dec_file_type(enc_u32(3) + rest) == Ok::<(FileType, int), FormatError>((FileType::Audio, 4)),
        dec_file_type(enc_u32(4) + rest) == Ok::<(FileType, int), FormatError>((FileType::Video, 4)),
        dec_file_type(enc_u32(5) + rest) == Ok::<(FileType, int), FormatError>((FileType::Archive, 4)),
        dec_file_type(enc_u32(6) + rest) == Ok::<(FileType, int), FormatError>((FileType::Document, 4)),
        dec_file_type(enc_u32(7) + rest) == Ok::<(FileType, int), FormatError>((FileType::Unknown, 4)),
        i > 7 ==> dec_file_type(enc_u32(i) + rest) == Err::<(FileType, int), FormatError>(
            FormatError::InvalidVariant(i),
        ),
{
    lemma_u32_roundtrip(0, rest);
    lemma_u32_roundtrip(1, rest);
    lemma_u32_roundtrip(2, rest);
    lemma_u32_roundtrip(3, rest);
    lemma_u32_roundtrip(4, rest);
    lemma_u32_roundtrip(5, rest);
    lemma_u32_roundtrip(6, rest);
    lemma_u32_roundtrip(7, rest);
    lemma_u32_roundtrip(i, rest);
}

/// `n` key/value pairs (text keys, byte-string values), inserted in order.
pub open spec fn dec_attr_list(b: Seq<u8>, n: nat) -> Decoded<Seq<(Seq<char>, Seq<u8>)>>
    decreases n,
{
    if n == 0 {
        Ok((Seq::empty(), 0))
    } else {
        match dec_attr_list(b, (n - 1) as nat) {
            Err(e) => Err(e),
            Ok((s, k)) => match dec_text(b.skip(k)) {
                Err(e) => Err(e),
                Ok((key, m1)) => match dec_bytes(b.skip(k).skip(m1)) {
                    Err(e) => Err(e),
                    Ok((val, m2)) => Ok((key_insert(s, key, val), k + m1 + m2)),
                },
            },
        }
    }
}

pub open spec fn dec_attrs(b: Seq<u8>) -> Decoded<Seq<(Seq<char>, Seq<u8>)>> {
    match dec_u64(b) {
        Err(e) => Err(e),
        Ok((n, k)) => match dec_attr_list(b.skip(k), n as nat) {
            Err(e) => Err(e),
            Ok((s, m)) => Ok((s, k + m)),
        },
    }
}

/// `n` key/value pairs of texts, inserted in order.
pub open spec fn dec_field_list(b: Seq<u8>, n: nat) -> Decoded<Seq<(Seq<char>, Seq<char>)>>
    decreases n,
{
    if n == 0 {
        Ok((Seq::empty(), 0))
    } else {
        match dec_field_list(b, (n - 1) as nat) {
            Err(e) => Err(e),
            Ok((s, k)) => match dec_text(b.skip(k)) {
                Err(e) => Err(e),
                Ok((key, m1)) => match dec_text(b.skip(k).skip(m1)) {
                    Err(e) => Err(e),
                    Ok((val, m2)) => Ok((key_insert(s, key, val), k + m1 + m2)),
                },
            },
        }
    }
}

pub open spec fn dec_fields(b: Seq<u8>) -> Decoded<Seq<(Seq<char>, Seq<char>)>> {
    match dec_u64(b) {
        Err(e) => Err(e),
        Ok((n, k)) => match dec_field_list(b.skip(k), n as nat) {
            Err(e) => Err(e),
            Ok((s, m)) => Ok((s, k + m)),
        },
    }
}

/// Decoding of a file entry from the front of `b`.
pub open spec fn dec_entry(b: Seq<u8>) -> Decoded<EntryModel> {
    match dec_text(b) {
        Err(e) => Err(e),
        Ok((path, n1)) => {
            let b1 = b.skip(n1);
            match dec_u64(b1) {
                Err(e) => Err(e),
                Ok((original_size, n2)) => {
                    let b2 = b1.skip(n2);
                    match dec_u64(b2) {
                        Err(e) => Err(e),
                        Ok((compressed_size, n3)) => dec_entry_mid(
                            b2.skip(n3),
                            path,
                            original_size,
                            compressed_size,
                            n1 + n2 + n3,
                        ),
                    }
                },
            }
        },
    }
}

/// The fields of an entry from its compression algorithm to its checksum,
/// then the rest.
pub open spec fn dec_entry_mid(
    b: Seq<u8>,
    path: Seq<char>,
    original_size: u64,
    compressed_size: u64,
    used: int,
) -> Decoded<EntryModel> {
    match dec_compression(b) {
        Err(e) => Err(e),
        Ok((compression, n4)) => {
            let b4 = b.skip(n4);
            match dec_file_type(b4) {
                Err(e) => Err(e),
                Ok((file_type, n5)) => {
                    let b5 = b4.skip(n5);
                    match dec_u64(b5) {
                        Err(e) => Err(e),
                        Ok((data_offset, n6)) => {
                            let b6 = b5.skip(n6);
                            match dec_u32(b6) {
                                Err(e) => Err(e),
                                Ok((checksum, n7)) => dec_entry_tail(
                                    b6.skip(n7),
                                    path,
                                    original_size,
                                    compressed_size,
                                    compression,
                                    file_type,
                                    data_offset,
                                    checksum,
                                    used + n4 + n5 + n6 + n7,
                                ),
                            }
                        },
                    }
                },
            }
        },
    }
}

/// The fields of an entry after its checksum.
pub open spec fn dec_entry_tail(
    b: Seq<u8>,
    path: Seq<char>,
    original_size: u64,
    compressed_size: u64,
    compression: CompressionAlgorithm,
    file_type: FileType,
    data_offset: u64,
    checksum: u32,
    used: int,
) -> Decoded<EntryModel> {
    match dec_u32(b) {
        Err(e) => Err(e),
        Ok((permissions, n1)) => {
            let b1 = b.skip(n1);
            match dec_opt_time(b1) {
                Err(e) => Err(e),
                Ok((created, n2)) => {
                    let b2 = b1.skip(n2);
                    match dec_opt_time(b2) {
                        Err(e) => Err(e),
                        Ok((modified, n3)) => {
                            let b3 = b2.skip(n3);
                            match dec_opt_time(b3) {
                                Err(e) => Err(e),
                                Ok((accessed, n4)) => {
                                    let b4 = b3.skip(n4);
                                    match dec_bool(b4) {
                                        Err(e) => Err(e),
                                        Ok((is_directory, n5)) => {
                                            let b5 = b4.skip(n5);
                                            match dec_attrs(b5) {
                                                Err(e) => Err(e),
                                                Ok((extended_attrs, n6)) => Ok(
                                                    (
                                                        EntryModel {
                                                            path,
                                                            original_size,
                                                            compressed_size,
                                                            compression,
                                                            file_type,
                                                            data_offset,
                                                            checksum,
                                                            permissions,
                                                            created,
                                                            modified,
                                                            accessed,
                                                            is_directory,
                                                            extended_attrs,
                                                        },
                                                        used + n1 + n2 + n3 + n4 + n5 + n6,
                                                    ),
                                                ),
                                            }
                                        },
                                    }
                                },
                            }
                        },
                    }
                },
            }
        },
    }
}

pub open spec fn dec_entry_list(b: Seq<u8>, n: nat) -> Decoded<Seq<EntryModel>>
    decreases n,
{
    if n == 0 {
        Ok((Seq::empty(), 0))
    } else {
        match dec_entry_list(b, (n - 1) as nat) {
            Err(e) => Err(e),
            Ok((s, k)) => match dec_entry(b.skip(k)) {
                Err(e) => Err(e),
                Ok((x, m)) => Ok((s.push(x), k + m)),
            },
        }
    }
}

pub open spec fn dec_opt_text(b: Seq<u8>) -> Decoded<Option<Seq<char>>> {
    match dec_tag(b) {
        Err(e) => Err(e),
        Ok((present, n)) => if !present {
            Ok((None, n))
        } else {
            match dec_text(b.skip(n)) {
                Err(e) => Err(e),
                Ok((t, m)) => Ok((Some(t), n + m)),
            }
        },
    }
}

/// Decoding of archive metadata from the front of `b`.
pub open spec fn dec_metadata(b: Seq<u8>) -> Decoded<MetadataModel> {
    match dec_u64(b) {
        Err(e) => Err(e),
        Ok((count, n0)) => match dec_entry_list(b.skip(n0), count as nat) {
            Err(e) => Err(e),
            Ok((entries, n1)) => {
                let b1 = b.skip(n0 + n1);
                match dec_opt_text(b1) {
                    Err(e) => Err(e),
                    Ok((comment, n2)) => {
                        let b2 = b1.skip(n2);
                        match dec_text(b2) {
                            Err(e) => Err(e),
                            Ok((creator, n3)) => {
                                let b3 = b2.skip(n3);
                                match dec_time(b3) {
                                    Err(e) => Err(e),
                                    Ok((created_at, n4)) => {
                                        let b4 = b3.skip(n4);
                                        match dec_time(b4) {
                                            Err(e) => Err(e),
                                            Ok((modified_at, n5)) => {
                                                let b5 = b4.skip(n5);
                                                match dec_fields(b5) {
                                                    Err(e) => Err(e),
                                                    Ok((custom_fields, n6)) => Ok(
                                                        (
                                                            MetadataModel {
                                                                entries,
                                                                comment,
                                                                creator,
                                                                created_at,
                                                                modified_at,
                                                                custom_fields,
                                                            },
                                                            n0 + n1 + n2 + n3 + n4 + n5 + n6,
                                                        ),
                                                    ),
                                                }
                                            },
                                        }
                                    },
                                }
                            },
                        }
                    },
                }
            },
        },
    }
}

// ---------------------------------------------------------------- well-formedness

/// A time that has an encoding which decodes back to it: after the epoch,
/// with nanoseconds under a second and seconds within the system clock.
pub open spec fn time_wf(t: Time) -> bool {
    match t {
        Time::SinceEpoch(ts) => ts.nanos < nanos_per_sec() && ts.secs <= i64::MAX,
        Time::BeforeEpoch => false,
    }
}

pub open spec fn opt_time_wf(o: Option<Time>) -> bool {
    o matches Some(t) ==> time_wf(t)
}

pub open spec fn text_fits(s: Seq<char>) -> bool {
    encode_utf8(s).len() <= u64::MAX
}

pub open spec fn attrs_bounded(s: Seq<(Seq<char>, Seq<u8>)>) -> bool {
    &&& s.len() <= u64::MAX
    &&& forall|i: int| 0 <= i < s.len() ==> text_fits(#[trigger] s[i].0) && s[i].1.len() <= u64::MAX
}

pub open spec fn attrs_wf(s: Seq<(Seq<char>, Seq<u8>)>) -> bool {
    keys_distinct(s) && attrs_bounded(s)
}

pub open spec fn fields_bounded(s: Seq<(Seq<char>, Seq<char>)>) -> bool {
    &&& s.len() <= u64::MAX
    &&& forall|i: int| 0 <= i < s.len() ==> text_fits(#[trigger] s[i].0) && text_fits(s[i].1)
}

pub open spec fn fields_wf(s: Seq<(Seq<char>, Seq<char>)>) -> bool {
    keys_distinct(s) && fields_bounded(s)
}

/// The lengths in an entry fit the format's `u64` length fields.
pub open spec fn entry_bounded(e: EntryModel) -> bool {
    text_fits(e.path) && attrs_bounded(e.extended_attrs)
}

/// An entry's times can be encoded and come back unchanged, and its
/// attribute names are distinct.
pub open spec fn entry_valid(e: EntryModel) -> bool {
    &&& opt_time_wf(e.created)
    &&& opt_time_wf(e.modified)
    &&& opt_time_wf(e.accessed)
    &&& keys_distinct(e.extended_attrs)
}

/// An entry whose encoding decodes back to it.
pub open spec fn entry_wf(e: EntryModel) -> bool {
    entry_bounded(e) && entry_valid(e)
}

/// The lengths in metadata fit the format's `u64` length fields.
pub open spec fn metadata_bounded(m: MetadataModel) -> bool {
    &&& m.entries.len() <= u64::MAX
    &&& forall|i: int| 0 <= i < m.entries.len() ==> entry_bounded(#[trigger] m.entries[i])
    &&& m.comment matches Some(c) ==> text_fits(c)
    &&& text_fits(m.creator)
    &&& fields_bounded(m.custom_fields)
}

/// Metadata whose times can be encoded and come back unchanged, and whose
/// keyed fields have distinct names.
pub open spec fn metadata_valid(m: MetadataModel) -> bool {
    &&& forall|i: int| 0 <= i < m.entries.len() ==> entry_valid(#[trigger] m.entries[i])
    &&& time_wf(m.created_at)
    &&& time_wf(m.modified_at)
    &&& keys_distinct(m.custom_fields)
}

/// Metadata whose encoding decodes back to it.
pub open spec fn metadata_wf(m: MetadataModel) -> bool {
    metadata_bounded(m) && metadata_valid(m)
}

// ---------------------------------------------------------------- round trips

proof fn lemma_step(f: Seq<u8>, t: Seq<u8>, rest: Seq<u8>)
    ensures
        (f + t) + rest == f + (t + rest),
        (f + (t + rest)).skip(f.len() as int) == t + rest,
{
    lemma_assoc(f, t, rest);
    lemma_skip_prefix(f, t + rest);
}

/// A well-formed time reads back from its encoding.
pub proof fn lemma_time_roundtrip(t: Time, rest: Seq<u8>)
    requires
        time_wf(t),
    ensures
        enc_time(t).len() == 12,
        dec_time(enc_time(t) + rest) == Ok::<(Time, int), FormatError>((t, 12)),
{
    if let Time::SinceEpoch(ts) = t {
        let a = enc_u64(ts.secs);
        let b = enc_u32(ts.nanos);
        lemma_step(a, b, rest);
        lemma_u64_roundtrip(ts.secs, b + rest);
        lemma_u32_roundtrip(ts.nanos, rest);
        assert((ts.nanos as int) / nanos_per_sec() == 0);
        assert((ts.nanos as int) % nanos_per_sec() == ts.nanos);
    }
}

/// A time is stored as its seconds (8 bytes) then its nanoseconds (4
/// bytes); any such pair reads back as the same instant, with the
/// nanoseconds brought under a second, unless the seconds then exceed the
/// system clock's signed 64-bit range.
pub proof fn lemma_time_decoding(secs: u64, nanos: u32, rest: Seq<u8>)
    ensures
        enc_time(Time::SinceEpoch(Timestamp { secs, nanos })) == enc_u64(secs) + enc_u32(nanos),
        ({
            let r = dec_time(enc_u64(secs) + enc_u32(nanos) + rest);
            if secs as int + nanos as int / 1_000_000_000 > i64::MAX {
                r == Err::<(Time, int), FormatError>(FormatError::TimeOverflow)
            } else {
                r matches Ok((Time::SinceEpoch(ts), n)) && n == 12 && ts.nanos < 1_000_000_000
                    && ts.secs * 1_000_000_000 + ts.nanos == secs * 1_000_000_000 + nanos
            }
        }),
{
    let a = enc_u64(secs);
    let b = enc_u32(nanos);
    lemma_step(a, b, rest);
    lemma_u64_roundtrip(secs, b + rest);
    lemma_u32_roundtrip(nanos, rest);
    assert(a + b + rest =~= a + (b + rest));
    let q = nanos as int / 1_000_000_000;
    let r = nanos as int % 1_000_000_000;
    vstd::arithmetic::div_mod::lemma_fundamental_div_mod(nanos as int, 1_000_000_000);
    vstd::arithmetic::div_mod::lemma_mod_bound(nanos as int, 1_000_000_000);
    assert(nanos as int == q * 1_000_000_000 + r && 0 <= r < 1_000_000_000);
    assert((secs + q) * 1_000_000_000 + r == secs * 1_000_000_000 + nanos) by (nonlinear_arith)
        requires
            nanos as int == q * 1_000_000_000 + r,
    ;
}

/// An optional well-formed time reads back from its encoding.
pub proof fn lemma_opt_time_roundtrip(o: Option<Time>, rest: Seq<u8>)
    requires
        opt_time_wf(o),
    ensures
        dec_opt_time(enc_opt_time(o) + rest) == Ok::<(Option<Time>, int), FormatError>(
            (o, enc_opt_time(o).len() as int),
        ),
{
    lemma_bool_roundtrip(false, rest);
    if let Some(t) = o {
        let a = enc_tag(true);
        let b = enc_time(t);
        lemma_step(a, b, rest);
        lemma_bool_roundtrip(true, b + rest);
        lemma_time_roundtrip(t, rest);
    }
}

/// A compression algorithm reads back from its encoding.
pub proof fn lemma_compression_roundtrip(a: CompressionAlgorithm, rest: Seq<u8>)
    ensures
        enc_u32(compression_index(a)).len() == 4,
        dec_compression(enc_u32(compression_index(a)) + rest) == Ok::<
            (CompressionAlgorithm, int),
            FormatError,
        >((a, 4)),
{
    lemma_u32_roundtrip(compression_index(a), rest);
}

/// A file type reads back from its encoding.
pub proof fn lemma_file_type_roundtrip(t: FileType, rest: Seq<u8>)
    ensures
        enc_u32(file_type_index(t)).len() == 4,
        dec_file_type(enc_u32(file_type_index(t)) + rest) == Ok::<(FileType, int), FormatError>(
            (t, 4),
        ),
{
    lemma_u32_roundtrip(file_type_index(t), rest);
}

#[verifier::spinoff_prover]
#[verifier::rlimit(40)]
/// A list of attributes reads back from its encoding.
pub proof fn lemma_attr_list_roundtrip(s: Seq<(Seq<char>, Seq<u8>)>, rest: Seq<u8>)
    requires
        attrs_wf(s),
    ensures
        dec_attr_list(enc_attr_list(s) + rest, s.len()) == Ok::<
            (Seq<(Seq<char>, Seq<u8>)>, int),
            FormatError,
        >((s, enc_attr_list(s).len() as int)),
    decreases s.len(),
{
    broadcast use vstd::seq_lib::group_seq_properties;

    if s.len() > 0 {
        let d = s.drop_last();
        let (k, v) = s.last();
        let item = enc_text(k) + enc_bytes(v);
        assert(attrs_wf(d)) by {
            assert forall|i: int| 0 <= i < d.len() implies text_fits(#[trigger] d[i].0) && d[i].1.len()
                <= u64::MAX by {
                assert(d[i] == s[i]);
            }
        }
        lemma_step(enc_attr_list(d), item, rest);
        lemma_attr_list_roundtrip(d, item + rest);
        let ek = enc_text(k);
        let ev = enc_bytes(v);
        assert(text_fits(s[s.len() - 1].0));
        lemma_step(ek, ev, rest);
        lemma_text_roundtrip(k, ev + rest);
        lemma_bytes_roundtrip(v, rest);
        let full = enc_attr_list(s) + rest;
        let kk = enc_attr_list(d).len() as int;
        assert(full.skip(kk) == item + rest);
        assert(full.skip(kk).skip(ek.len() as int) == ev + rest);
        lemma_key_index_absent(d, k);
        assert(d.push((k, v)) =~= s);
    }
}

/// Attributes with distinct names read back from their encoding.
pub proof fn lemma_attrs_roundtrip(s: Seq<(Seq<char>, Seq<u8>)>, rest: Seq<u8>)
    requires
        attrs_wf(s),
    ensures
        dec_attrs(enc_attrs(s) + rest) == Ok::<(Seq<(Seq<char>, Seq<u8>)>, int), FormatError>(
            (s, enc_attrs(s).len() as int),
        ),
{
    let l = enc_u64(s.len() as u64);
    lemma_step(l, enc_attr_list(s), rest);
    lemma_u64_roundtrip(s.len() as u64, enc_attr_list(s) + rest);
    lemma_attr_list_roundtrip(s, rest);
}

#[verifier::spinoff_prover]
#[verifier::rlimit(40)]
/// A list of custom fields reads back from its encoding.
pub proof fn lemma_field_list_roundtrip(s: Seq<(Seq<char>, Seq<char>)>, rest: Seq<u8>)
    requires
        fields_wf(s),
    ensures
        dec_field_list(enc_field_list(s) + rest, s.len()) == Ok::<
            (Seq<(Seq<char>, Seq<char>)>, int),
            FormatError,
        >((s, enc_field_list(s).len() as int)),
    decreases s.len(),
{
    if s.len() > 0 {
        let d = s.drop_last();
        let (k, v) = s.last();
        let ek = enc_text(k);
        let ev = enc_text(v);
        let item = ek + ev;
        assert(fields_wf(d)) by {
            assert forall|i: int| 0 <= i < d.len() implies text_fits(#[trigger] d[i].0) && text_fits(
                d[i].1,
            ) by {
                assert(d[i] == s[i]);
            }
        }
        assert(text_fits(s[s.len() - 1].0) && text_fits(s[s.len() - 1].1));
        let full = enc_field_list(s) + rest;
        lemma_step(enc_field_list(d), item, rest);
        assert(full == enc_field_list(d) + (item + rest));
        lemma_field_list_roundtrip(d, item + rest);
        let kk = enc_field_list(d).len() as int;
        assert(dec_field_list(full, d.len()) == Ok::<
            (Seq<(Seq<char>, Seq<char>)>, int),
            FormatError,
        >((d, kk)));
        assert(full.skip(kk) == item + rest);
        lemma_step(ek, ev, rest);
        lemma_text_roundtrip(k, ev + rest);
        lemma_text_roundtrip(v, rest);
        assert(dec_text(full.skip(kk)) == Ok::<(Seq<char>, int), FormatError>(
            (k, ek.len() as int),
        ));
        assert(full.skip(kk).skip(ek.len() as int) == ev + rest);
        assert(dec_text(full.skip(kk).skip(ek.len() as int)) == Ok::<
            (Seq<char>, int),
            FormatError,
        >((v, ev.len() as int)));
        lemma_key_index_absent(d, k);
        assert(d.push((k, v)) =~= s);
        assert(key_insert(d, k, v) == s);
        assert((s.len() - 1) as nat == d.len());
    } else {
        assert(s =~= Seq::<(Seq<char>, Seq<char>)>::empty());
    }
}

/// Custom fields with distinct names read back from their encoding.
pub proof fn lemma_fields_roundtrip(s: Seq<(Seq<char>, Seq<char>)>, rest: Seq<u8>)
    requires
        fields_wf(s),
    ensures
        dec_fields(enc_fields(s) + rest) == Ok::<(Seq<(Seq<char>, Seq<char>)>, int), FormatError>(
            (s, enc_fields(s).len() as int),
        ),
{
    let l = enc_u64(s.len() as u64);
    lemma_step(l, enc_field_list(s), rest);
    lemma_u64_roundtrip(s.len() as u64, enc_field_list(s) + rest);
    lemma_field_list_roundtrip(s, rest);
}

pub open spec fn enc_entry_tail(e: EntryModel) -> Seq<u8> {
    enc_u32(e.permissions) + (enc_opt_time(e.created) + (enc_opt_time(e.modified) + (enc_opt_time(
        e.accessed,
    ) + (enc_bool(e.is_directory) + enc_attrs(e.extended_attrs)))))
}

#[verifier::spinoff_prover]
proof fn lemma_entry_tail_roundtrip(e: EntryModel, rest: Seq<u8>, used: int)
    requires
        entry_wf(e),
    ensures
        dec_entry_tail(
            enc_entry_tail(e) + rest,
            e.path,
            e.original_size,
            e.compressed_size,
            e.compression,
            e.file_type,
            e.data_offset,
            e.checksum,
            used,
        ) == Ok::<(EntryModel, int), FormatError>((e, used + enc_entry_tail(e).len())),
{
    let f8 = enc_u32(e.permissions);
    let f9 = enc_opt_time(e.created);
    let f10 = enc_opt_time(e.modified);
    let f11 = enc_opt_time(e.accessed);
    let f12 = enc_bool(e.is_directory);
    let f13 = enc_attrs(e.extended_attrs);
    let t12 = f12 + f13;
    let t11 = f11 + t12;
    let t10 = f10 + t11;
    let t9 = f9 + t10;
    lemma_step(f8, t9, rest);
    lemma_u32_roundtrip(e.permissions, t9 + rest);
    lemma_step(f9, t10, rest);
    lemma_opt_time_roundtrip(e.created, t10 + rest);
    lemma_step(f10, t11, rest);
    lemma_opt_time_roundtrip(e.modified, t11 + rest);
    lemma_step(f11, t12, rest);
    lemma_opt_time_roundtrip(e.accessed, t12 + rest);
    lemma_step(f12, f13, rest);
    lemma_bool_roundtrip(e.is_directory, f13 + rest);
    lemma_attrs_roundtrip(e.extended_attrs, rest);
}

pub open spec fn enc_entry_mid(e: EntryModel) -> Seq<u8> {
    enc_u32(compression_index(e.compression)) + (enc_u32(file_type_index(e.file_type)) + (enc_u64(
        e.data_offset,
    ) + (enc_u32(e.checksum) + enc_entry_tail(e))))
}

#[verifier::spinoff_prover]
proof fn lemma_entry_mid_roundtrip(e: EntryModel, rest: Seq<u8>, used: int)
    requires
        entry_wf(e),
    ensures
        dec_entry_mid(enc_entry_mid(e) + rest, e.path, e.original_size, e.compressed_size, used)
            == Ok::<(EntryModel, int), FormatError>((e, used + enc_entry_mid(e).len())),
{
    let f4 = enc_u32(compression_index(e.compression));
    let f5 = enc_u32(file_type_index(e.file_type));
    let f6 = enc_u64(e.data_offset);
    let f7 = enc_u32(e.checksum);
    let t8 = enc_entry_tail(e);
    let t7 = f7 + t8;
    let t6 = f6 + t7;
    let t5 = f5 + t6;
    let b = enc_entry_mid(e) + rest;
    lemma_step(f4, t5, rest);
    lemma_compression_roundtrip(e.compression, t5 + rest);
    assert(dec_compression(b) == Ok::<(CompressionAlgorithm, int), FormatError>(
        (e.compression, 4),
    ));
    let b4 = b.skip(4);
    assert(b4 == t5 + rest);
    lemma_step(f5, t6, rest);
    lemma_file_type_roundtrip(e.file_type, t6 + rest);
    let b5 = b4.skip(4);
    assert(b5 == t6 + rest);
    lemma_step(f6, t7, rest);
    lemma_u64_roundtrip(e.data_offset, t7 + rest);
    let b6 = b5.skip(8);
    assert(b6 == t7 + rest);
    lemma_step(f7, t8, rest);
    lemma_u32_roundtrip(e.checksum, t8 + rest);
    let b7 = b6.skip(4);
    assert(b7 == t8 + rest);
    lemma_entry_tail_roundtrip(e, rest, used + 20);
    assert(dec_entry_mid(b, e.path, e.original_size, e.compressed_size, used) == dec_entry_tail(
        b7,
        e.path,
        e.original_size,
        e.compressed_size,
        e.compression,
        e.file_type,
        e.data_offset,
        e.checksum,
        used + 20,
    ));
}

#[verifier::spinoff_prover]
/// A well-formed entry reads back from its encoding.
pub proof fn lemma_entry_roundtrip(e: EntryModel, rest: Seq<u8>)
    requires
        entry_wf(e),
    ensures
        dec_entry(enc_entry(e) + rest) == Ok::<(EntryModel, int), FormatError>(
            (e, enc_entry(e).len() as int),
        ),
{
    let f1 = enc_text(e.path);
    let f2 = enc_u64(e.original_size);
    let f3 = enc_u64(e.compressed_size);
    let t4 = enc_entry_mid(e);
    let t3 = f3 + t4;
    let t2 = f2 + t3;
    assert(enc_entry(e) == f1 + t2);
    lemma_step(f1, t2, rest);
    lemma_text_roundtrip(e.path, t2 + rest);
    lemma_step(f2, t3, rest);
    lemma_u64_roundtrip(e.original_size, t3 + rest);
    lemma_step(f3, t4, rest);
    lemma_u64_roundtrip(e.compressed_size, t4 + rest);
    lemma_entry_mid_roundtrip(e, rest, (f1.len() + 16) as int);
}

#[verifier::spinoff_prover]
#[verifier::rlimit(40)]
/// Well-formed entries read back from their encoding.
pub proof fn lemma_entry_list_roundtrip(s: Seq<EntryModel>, rest: Seq<u8>)
    requires
        forall|i: int| 0 <= i < s.len() ==> entry_wf(#[trigger] s[i]),
    ensures
        dec_entry_list(enc_entry_list(s) + rest, s.len()) == Ok::<(Seq<EntryModel>, int), FormatError>(
            (s, enc_entry_list(s).len() as int),
        ),
    decreases s.len(),
{
    broadcast use vstd::seq_lib::group_seq_properties;

    if s.len() > 0 {
        let d = s.drop_last();
        let item = enc_entry(s.last());
        assert forall|i: int| 0 <= i < d.len() implies entry_wf(#[trigger] d[i]) by {
            assert(d[i] == s[i]);
        }
        lemma_step(enc_entry_list(d), item, rest);
        lemma_entry_list_roundtrip(d, item + rest);
        assert(entry_wf(s[s.len() - 1]));
        lemma_entry_roundtrip(s.last(), rest);
        assert(d.push(s.last()) =~= s);
    }
}

/// An optional string reads back from its encoding.
pub proof fn lemma_opt_text_roundtrip(o: Option<Seq<char>>, rest: Seq<u8>)
    requires
        o matches Some(t) ==> text_fits(t),
    ensures
        dec_opt_text(enc_opt_text(o) + rest) == Ok::<(Option<Seq<char>>, int), FormatError>(
            (o, enc_opt_text(o).len() as int),
        ),
{
    lemma_bool_roundtrip(false, rest);
    if let Some(t) = o {
        let a = enc_tag(true);
        let b = enc_text(t);
        lemma_step(a, b, rest);
        lemma_bool_roundtrip(true, b + rest);
        lemma_text_roundtrip(t, rest);
    }
}

/// Decoding the encoding of well-formed metadata gives it back.
#[verifier::spinoff_prover]
#[verifier::rlimit(60)]
pub proof fn lemma_metadata_roundtrip(m: MetadataModel, rest: Seq<u8>)
    requires
        metadata_wf(m),
    ensures
        dec_metadata(enc_metadata(m) + rest) == Ok::<(MetadataModel, int), FormatError>(
            (m, enc_metadata(m).len() as int),
        ),
{
    let f0 = enc_u64(m.entries.len() as u64);
    let f1 = enc_entry_list(m.entries);
    let f2 = enc_opt_text(m.comment);
    let f3 = enc_text(m.creator);
    let f4 = enc_time(m.created_at);
    let f5 = enc_time(m.modified_at);
    let f6 = enc_fields(m.custom_fields);
    let t5 = f5 + f6;
    let t4 = f4 + t5;
    let t3 = f3 + t4;
    let t2 = f2 + t3;
    let b = enc_metadata(m) + rest;
    assert(enc_metadata(m) == (f0 + f1) + t2);
    lemma_step(f0 + f1, t2, rest);
    lemma_step(f0, f1, t2 + rest);
    lemma_u64_roundtrip(m.entries.len() as u64, f1 + (t2 + rest));
    lemma_entry_list_roundtrip(m.entries, t2 + rest);
    assert(b.skip(8 + f1.len() as int) == t2 + rest) by {
        assert(b =~= f0 + (f1 + (t2 + rest)));
        assert(b.skip(8 + f1.len() as int) =~= t2 + rest);
    }
    lemma_step(f2, t3, rest);
    lemma_opt_text_roundtrip(m.comment, t3 + rest);
    lemma_step(f3, t4, rest);
    lemma_text_roundtrip(m.creator, t4 + rest);
    lemma_step(f4, t5, rest);
    lemma_time_roundtrip(m.created_at, t5 + rest);
    lemma_step(f5, f6, rest);
    lemma_time_roundtrip(m.modified_at, f6 + rest);
    lemma_fields_roundtrip(m.custom_fields, rest);
}

// ---------------------------------------------------------------- writing

/// A value of a type that has an encoding: no time before the epoch.
pub open spec fn time_encodable(t: Time) -> bool {
    t is SinceEpoch
}

pub open spec fn opt_time_encodable(o: Option<Time>) -> bool {
    o matches Some(t) ==> time_encodable(t)
}

pub open spec fn entry_encodable(e: EntryModel) -> bool {
    opt_time_encodable(e.created) && opt_time_encodable(e.modified) && opt_time_encodable(
        e.accessed,
    )
}

/// Metadata that has an encoding: no time in it lies before the epoch.
pub open spec fn metadata_encodable(m: MetadataModel) -> bool {
    &&& forall|i: int| 0 <= i < m.entries.len() ==> entry_encodable(#[trigger] m.entries[i])
    &&& time_encodable(m.created_at)
    &&& time_encodable(m.modified_at)
}

proof fn lemma_concat6(
    o: Seq<u8>,
    a: Seq<u8>,
    b: Seq<u8>,
    c: Seq<u8>,
    d: Seq<u8>,
    e: Seq<u8>,
    f: Seq<u8>,
)
    ensures
        o + a + b + c + d + e + f == o + (a + (b + (c + (d + (e + f))))),
{
    assert(o + a + b + c + d + e + f =~= o + (a + (b + (c + (d + (e + f))))));
}

fn put_time(out: &mut Vec<u8>, t: &Time)
    requires
        time_encodable(*t),
    ensures
        final(out)@ == old(out)@ + enc_time(*t),
{
    match t {
        Time::SinceEpoch(ts) => {
            put_u64(out, ts.secs);
            put_u32(out, ts.nanos);
            proof {
                lemma_assoc(old(out)@, enc_u64(ts.secs), enc_u32(ts.nanos));
            }
        },
        Time::BeforeEpoch => {},
    }
}

fn put_opt_time(out: &mut Vec<u8>, o: &Option<Time>)
    requires
        opt_time_encodable(*o),
    ensures
        final(out)@ == old(out)@ + enc_opt_time(*o),
{
    match o {
        None => put_bool(out, false),
        Some(t) => {
            put_bool(out, true);
            put_time(out, t);
            proof {
                lemma_assoc(old(out)@, enc_tag(true), enc_time(*t));
            }
        },
    }
}

proof fn lemma_attr_list_take(s: Seq<(Seq<char>, Seq<u8>)>, i: int)
    requires
        0 <= i < s.len(),
    ensures
        enc_attr_list(s.take(i + 1)) == enc_attr_list(s.take(i)) + (enc_text(s[i].0) + enc_bytes(
            s[i].1,
        )),
{
    assert(s.take(i + 1).drop_last() =~= s.take(i));
}

proof fn lemma_field_list_take(s: Seq<(Seq<char>, Seq<char>)>, i: int)
    requires
        0 <= i < s.len(),
    ensures
        enc_field_list(s.take(i + 1)) == enc_field_list(s.take(i)) + (enc_text(s[i].0) + enc_text(
            s[i].1,
        )),
{
    assert(s.take(i + 1).drop_last() =~= s.take(i));
}

proof fn lemma_entry_list_take(s: Seq<EntryModel>, i: int)
    requires
        0 <= i < s.len(),
    ensures
        enc_entry_list(s.take(i + 1)) == enc_entry_list(s.take(i)) + enc_entry(s[i]),
{
    assert(s.take(i + 1).drop_last() =~= s.take(i));
}

#[verifier::spinoff_prover]
fn put_attrs(out: &mut Vec<u8>, v: &Vec<(String, Vec<u8>)>)
    ensures
        final(out)@ == old(out)@ + enc_attrs(attrs_view(v@)),
        attrs_bounded(attrs_view(v@)),
{
    let ghost s = attrs_view(v@);
    put_u64(out, v.len() as u64);
    let ghost start = out@;
    let mut i: usize = 0;
    assert(s.take(0) =~= Seq::<(Seq<char>, Seq<u8>)>::empty());
    while i < v.len()
        invariant
            s == attrs_view(v@),
            s.len() == v@.len(),
            i <= v@.len(),
            out@ == start + enc_attr_list(s.take(i as int)),
            forall|k: int| 0 <= k < i ==> text_fits(#[trigger] s[k].0) && s[k].1.len() <= u64::MAX,
        decreases v@.len() - i,
    {
        let ghost before = out@;
        let key: &str = v[i].0.as_str();
        let val: &[u8] = v[i].1.as_slice();
        put_text(out, key);
        put_bytes(out, val);
        assert(s[i as int] == (v@[i as int].0@, v@[i as int].1@));
        assert(text_fits(s[i as int].0) && s[i as int].1.len() <= u64::MAX);
        assert(forall|k: int| 0 <= k <= i ==> text_fits(#[trigger] s[k].0) && s[k].1.len() <= u64::MAX);
        proof {
            lemma_attr_list_take(s, i as int);
            lemma_assoc(before, enc_text(s[i as int].0), enc_bytes(s[i as int].1));
            lemma_assoc(start, enc_attr_list(s.take(i as int)), enc_text(s[i as int].0) + enc_bytes(
                s[i as int].1,
            ));
        }
        i = i + 1;
    }
    proof {
        assert(s.take(v@.len() as int) =~= s);
        assert(v@.len() == v.len());
        assert(forall|k: int| 0 <= k < s.len() ==> text_fits(#[trigger] s[k].0) && s[k].1.len() <= u64::MAX);
        assert(s.len() <= u64::MAX);
        assert(attrs_bounded(s));
        lemma_assoc(old(out)@, enc_u64(v@.len() as u64), enc_attr_list(s));
    }
}

#[verifier::spinoff_prover]
fn put_fields(out: &mut Vec<u8>, v: &Vec<(String, String)>)
    ensures
        final(out)@ == old(out)@ + enc_fields(fields_view(v@)),
        fields_bounded(fields_view(v@)),
{
    let ghost s = fields_view(v@);
    put_u64(out, v.len() as u64);
    let ghost start = out@;
    let mut i: usize = 0;
    assert(s.take(0) =~= Seq::<(Seq<char>, Seq<char>)>::empty());
    while i < v.len()
        invariant
            s == fields_view(v@),
            s.len() == v@.len(),
            i <= v@.len(),
            out@ == start + enc_field_list(s.take(i as int)),
            forall|k: int| 0 <= k < i ==> text_fits(#[trigger] s[k].0) && text_fits(s[k].1),
        decreases v@.len() - i,
    {
        let ghost before = out@;
        let key: &str = v[i].0.as_str();
        let val: &str = v[i].1.as_str();
        put_text(out, key);
        put_text(out, val);
        assert(s[i as int] == (v@[i as int].0@, v@[i as int].1@));
        assert(text_fits(s[i as int].0) && text_fits(s[i as int].1));
        assert(forall|k: int| 0 <= k <= i ==> text_fits(#[trigger] s[k].0) && text_fits(s[k].1));
        proof {
            lemma_field_list_take(s, i as int);
            lemma_assoc(before, enc_text(s[i as int].0), enc_text(s[i as int].1));
            lemma_assoc(start, enc_field_list(s.take(i as int)), enc_text(s[i as int].0) + enc_text(
                s[i as int].1,
            ));
        }
        i = i + 1;
    }
    proof {
        assert(s.take(v@.len() as int) =~= s);
        assert(v@.len() == v.len());
        assert(forall|k: int| 0 <= k < s.len() ==> text_fits(#[trigger] s[k].0) && text_fits(s[k].1));
        assert(s.len() <= u64::MAX);
        assert(fields_bounded(s));
        lemma_assoc(old(out)@, enc_u64(v@.len() as u64), enc_field_list(s));
    }
}

#[verifier::spinoff_prover]
fn put_entry_tail(out: &mut Vec<u8>, e: &FileEntry)
    requires
        entry_encodable(e@),
    ensures
        final(out)@ == old(out)@ + enc_entry_tail(e@),
        attrs_bounded(e@.extended_attrs),
{
    let ghost o0 = out@;
    put_u32(out, e.permissions);
    put_opt_time(out, &e.created);
    put_opt_time(out, &e.modified);
    put_opt_time(out, &e.accessed);
    put_bool(out, e.is_directory);
    put_attrs(out, &e.extended_attrs);
    proof {
        let m = e@;
        lemma_concat6(
            o0,
            enc_u32(m.permissions),
            enc_opt_time(m.created),
            enc_opt_time(m.modified),
            enc_opt_time(m.accessed),
            enc_bool(m.is_directory),
            enc_attrs(m.extended_attrs),
        );
    }
}

#[verifier::spinoff_prover]
fn put_entry_mid(out: &mut Vec<u8>, e: &FileEntry)
    requires
        entry_encodable(e@),
    ensures
        final(out)@ == old(out)@ + enc_entry_mid(e@),
        attrs_bounded(e@.extended_attrs),
{
    let ghost o0 = out@;
    match e.compression {
        CompressionAlgorithm::NoCompression => put_u32(out, 0),
        CompressionAlgorithm::Deflate => put_u32(out, 1),
        CompressionAlgorithm::Lzma => put_u32(out, 2),
        CompressionAlgorithm::Zstd => put_u32(out, 3),
    }
    let ghost o1 = out@;
    match e.file_type {
        FileType::Text => put_u32(out, 0),
        FileType::Binary => put_u32(out, 1),
        FileType::Image => put_u32(out, 2),
        FileType::Audio => put_u32(out, 3),
        FileType::Video => put_u32(out, 4),
        FileType::Archive => put_u32(out, 5),
        FileType::Document => put_u32(out, 6),
        FileType::Unknown => put_u32(out, 7),
    }
    let ghost o2 = out@;
    put_u64(out, e.data_offset);
    put_u32(out, e.checksum);
    let ghost o3 = out@;
    put_entry_tail(out, e);
    proof {
        let m = e@;
        assert(o1 == o0 + enc_u32(compression_index(m.compression)));
        assert(o2 == o1 + enc_u32(file_type_index(m.file_type)));
        assert(out@ =~= o0 + enc_entry_mid(m));
    }
}

/// Appends the encoding of a file entry.
#[verifier::spinoff_prover]
pub fn put_entry(out: &mut Vec<u8>, e: &FileEntry)
    requires
        entry_encodable(e@),
    ensures
        final(out)@ == old(out)@ + enc_entry(e@),
        entry_bounded(e@),
{
    let ghost o0 = out@;
    put_text(out, e.path.as_str());
    put_u64(out, e.original_size);
    put_u64(out, e.compressed_size);
    put_entry_mid(out, e);
    proof {
        let m = e@;
        assert(out@ =~= o0 + enc_entry(m));
    }
}

/// Whether every time in the metadata lies at or after the epoch.
pub fn is_encodable(m: &ArchiveMetadata) -> (res: bool)
    ensures
        res == metadata_encodable(m@),
{
    let ghost es = entries_view(m.entries@);
    let mut i: usize = 0;
    while i < m.entries.len()
        invariant
            es == entries_view(m.entries@),
            i <= m.entries@.len(),
            forall|k: int| 0 <= k < i ==> entry_encodable(#[trigger] es[k]),
        decreases m.entries@.len() - i,
    {
        let e = &m.entries[i];
        assert(es[i as int] == e@);
        let ok = match (&e.created, &e.modified, &e.accessed) {
            (Some(Time::BeforeEpoch), _, _) => false,
            (_, Some(Time::BeforeEpoch), _) => false,
            (_, _, Some(Time::BeforeEpoch)) => false,
            _ => true,
        };
        if !ok {
            assert(!entry_encodable(es[i as int]));
            assert(m@.entries == es);
            return false;
        }
        i = i + 1;
    }
    match (&m.created_at, &m.modified_at) {
        (Time::SinceEpoch(_), Time::SinceEpoch(_)) => true,
        _ => false,
    }
}

/// The encoding of metadata that has one.
#[verifier::spinoff_prover]
pub fn encode_metadata(m: &ArchiveMetadata) -> (out: Vec<u8>)
    requires
        metadata_encodable(m@),
    ensures
        out@ == enc_metadata(m@),
        metadata_bounded(m@),
{
    let ghost es = entries_view(m.entries@);
    let mut out: Vec<u8> = Vec::new();
    put_u64(&mut out, m.entries.len() as u64);
    let ghost start = out@;
    let mut i: usize = 0;
    assert(es.take(0) =~= Seq::<EntryModel>::empty());
    while i < m.entries.len()
        invariant
            es == entries_view(m.entries@),
            es.len() == m.entries@.len(),
            metadata_encodable(m@),
            i <= m.entries@.len(),
            out@ == start + enc_entry_list(es.take(i as int)),
            forall|k: int| 0 <= k < i ==> entry_bounded(#[trigger] es[k]),
        decreases m.entries@.len() - i,
    {
        let ghost before = out@;
        assert(m@.entries == es);
        assert(entry_encodable(es[i as int]));
        assert(es[i as int] == m.entries@[i as int]@);
        put_entry(&mut out, &m.entries[i]);
        proof {
            lemma_entry_list_take(es, i as int);
            lemma_assoc(start, enc_entry_list(es.take(i as int)), enc_entry(es[i as int]));
        }
        i = i + 1;
    }
    assert(es.take(m.entries@.len() as int) =~= es);
    let ghost mid = out@;
    match &m.comment {
        None => put_bool(&mut out, false),
        Some(c) => {
            put_bool(&mut out, true);
            put_text(&mut out, c.as_str());
            proof {
                lemma_assoc(mid, enc_tag(true), enc_text(c@));
            }
        },
    }
    put_text(&mut out, m.creator.as_str());
    put_time(&mut out, &m.created_at);
    put_time(&mut out, &m.modified_at);
    put_fields(&mut out, &m.custom_fields);
    proof {
        let mm = m@;
        assert(out@ =~= enc_metadata(mm));
    }
    out
}

// ---------------------------------------------------------------- reading

proof fn lemma_key_index_take<V>(s: Seq<(Seq<char>, V)>, k: Seq<char>, j: int)
    requires
        0 <= j <= s.len(),
        forall|i: int| j <= i < s.len() ==> s[i].0 != k,
    ensures
        key_index(s, k) == key_index(s.take(j), k),
    decreases s.len(),
{
    if s.len() > j {
        lemma_key_index_take(s.drop_last(), k, j);
        assert(s.drop_last().take(j) =~= s.take(j));
    } else {
        assert(s.take(j) =~= s);
    }
}

proof fn lemma_attr_list_err(b: Seq<u8>, m: nat, n: nat)
    requires
        m <= n,
        dec_attr_list(b, m) is Err,
    ensures
        dec_attr_list(b, n) == dec_attr_list(b, m),
    decreases n,
{
    if n > m {
        lemma_attr_list_err(b, m, (n - 1) as nat);
    }
}

proof fn lemma_field_list_err(b: Seq<u8>, m: nat, n: nat)
    requires
        m <= n,
        dec_field_list(b, m) is Err,
    ensures
        dec_field_list(b, n) == dec_field_list(b, m),
    decreases n,
{
    if n > m {
        lemma_field_list_err(b, m, (n - 1) as nat);
    }
}

proof fn lemma_entry_list_err(b: Seq<u8>, m: nat, n: nat)
    requires
        m <= n,
        dec_entry_list(b, m) is Err,
    ensures
        dec_entry_list(b, n) == dec_entry_list(b, m),
    decreases n,
{
    if n > m {
        lemma_entry_list_err(b, m, (n - 1) as nat);
    }
}

fn attrs_insert(v: &mut Vec<(String, Vec<u8>)>, k: String, val: Vec<u8>)
    ensures
        attrs_view(final(v)@) == key_insert(attrs_view(old(v)@), k@, val@),
{
    let ghost s = attrs_view(v@);
    let mut j = v.len();
    while j > 0
        invariant
            s == attrs_view(v@),
            s == attrs_view(old(v)@),
            s.len() == v@.len(),
            j <= v@.len(),
            forall|i: int| j <= i < s.len() ==> s[i].0 != k@,
        decreases j,
    {
        assert(s[j - 1] == (v@[j - 1].0@, v@[j - 1].1@));
        if v[j - 1].0 == k {
            proof {
                lemma_key_index_take(s, k@, j as int);
                assert(s.take(j as int).last() == s[j - 1]);
                assert(s[j - 1].0 == k@);
                assert(key_index(s.take(j as int), k@) == j - 1);
                assert(key_index(s, k@) == j - 1);
            }
            let ghost kv = k@;
            let ghost vv = val@;
            v[j - 1] = (k, val);
            assert(attrs_view(v@) =~= s.update(j - 1, (kv, vv)));
            assert(key_insert(s, kv, vv) == s.update(j - 1, (kv, vv)));
            return;
        }
        j = j - 1;
    }
    proof {
        lemma_key_index_take(s, k@, 0);
        assert(s.take(0).len() == 0);
    }
    let ghost kv = k@;
    let ghost vv = val@;
    v.push((k, val));
    assert(attrs_view(v@) =~= s.push((kv, vv)));
}

fn fields_insert(v: &mut Vec<(String, String)>, k: String, val: String)
    ensures
        fields_view(final(v)@) == key_insert(fields_view(old(v)@), k@, val@),
{
    let ghost s = fields_view(v@);
    let mut j = v.len();
    while j > 0
        invariant
            s == fields_view(v@),
            s == fields_view(old(v)@),
            s.len() == v@.len(),
            j <= v@.len(),
            forall|i: int| j <= i < s.len() ==> s[i].0 != k@,
        decreases j,
    {
        assert(s[j - 1] == (v@[j - 1].0@, v@[j - 1].1@));
        if v[j - 1].0 == k {
            proof {
                lemma_key_index_take(s, k@, j as int);
                assert(s.take(j as int).last() == s[j - 1]);
                assert(s[j - 1].0 == k@);
                assert(key_index(s.take(j as int), k@) == j - 1);
                assert(key_index(s, k@) == j - 1);
            }
            let ghost kv = k@;
            let ghost vv = val@;
            v[j - 1] = (k, val);
            assert(fields_view(v@) =~= s.update(j - 1, (kv, vv)));
            assert(key_insert(s, kv, vv) == s.update(j - 1, (kv, vv)));
            return;
        }
        j = j - 1;
    }
    proof {
        lemma_key_index_take(s, k@, 0);
        assert(s.take(0).len() == 0);
    }
    let ghost kv = k@;
    let ghost vv = val@;
    v.push((k, val));
    assert(fields_view(v@) =~= s.push((kv, vv)));
}

fn get_time(buf: &[u8], pos: usize) -> (res: Result<(Time, usize), FormatError>)
    requires
        pos <= buf@.len(),
    ensures
        read_matches(buf@, pos as int, dec_time(buf@.skip(pos as int)), res),
        res matches Ok((_, p)) ==> pos < p <= buf@.len(),
{
    let (secs, p1) = match get_u64(buf, pos) {
        Ok(x) => x,
        Err(e) => return Err(e),
    };
    proof { lemma_skip_skip(buf@, pos as int, p1 - pos); }
    let (nanos, p2) = match get_u32(buf, p1) {
        Ok(x) => x,
        Err(e) => return Err(e),
    };
    let extra: u32 = nanos / 1_000_000_000;
    let total = match secs.checked_add(extra as u64) {
        Some(t) => t,
        None => return Err(FormatError::TimeOverflow),
    };
    if total > 0x7fff_ffff_ffff_ffffu64 {
        return Err(FormatError::TimeOverflow);
    }
    Ok((Time::SinceEpoch(Timestamp { secs: total, nanos: nanos % 1_000_000_000 }), p2))
}

fn get_opt_time(buf: &[u8], pos: usize) -> (res: Result<(Option<Time>, usize), FormatError>)
    requires
        pos <= buf@.len(),
    ensures
        read_matches(buf@, pos as int, dec_opt_time(buf@.skip(pos as int)), res),
        res matches Ok((_, p)) ==> pos < p <= buf@.len(),
{
    let (present, p1) = match get_tag(buf, pos) {
        Ok(x) => x,
        Err(e) => return Err(e),
    };
    if !present {
        return Ok((None, p1));
    }
    proof { lemma_skip_skip(buf@, pos as int, p1 - pos); }
    match get_time(buf, p1) {
        Ok((t, p2)) => Ok((Some(t), p2)),
        Err(e) => Err(e),
    }
}

fn get_compression(buf: &[u8], pos: usize) -> (res: Result<(CompressionAlgorithm, usize), FormatError>)
    requires
        pos <= buf@.len(),
    ensures
        read_matches(buf@, pos as int, dec_compression(buf@.skip(pos as int)), res),
        res matches Ok((_, p)) ==> pos < p <= buf@.len(),
{
    let (i, p) = match get_u32(buf, pos) {
        Ok(x) => x,
        Err(e) => return Err(e),
    };
    if i == 0 {
        Ok((CompressionAlgorithm::NoCompression, p))
    } else if i == 1 {
        Ok((CompressionAlgorithm::Deflate, p))
    } else if i == 2 {
        Ok((CompressionAlgorithm::Lzma, p))
    } else if i == 3 {
        Ok((CompressionAlgorithm::Zstd, p))
    } else {
        Err(FormatError::InvalidVariant(i))
    }
}

fn get_file_type(buf: &[u8], pos: usize) -> (res: Result<(FileType, usize), FormatError>)
    requires
        pos <= buf@.len(),
    ensures
        read_matches(buf@, pos as int, dec_file_type(buf@.skip(pos as int)), res),
        res matches Ok((_, p)) ==> pos < p <= buf@.len(),
{
    let (i, p) = match get_u32(buf, pos) {
        Ok(x) => x,
        Err(e) => return Err(e),
    };
    let t = if i == 0 {
        FileType::Text
    } else if i == 1 {
        FileType::Binary
    } else if i == 2 {
        FileType::Image
    } else if i == 3 {
        FileType::Audio
    } else if i == 4 {
        FileType::Video
    } else if i == 5 {
        FileType::Archive
    } else if i == 6 {
        FileType::Document
    } else if i == 7 {
        FileType::Unknown
    } else {
        return Err(FormatError::InvalidVariant(i));
    };
    Ok((t, p))
}

#[verifier::spinoff_prover]
fn get_attrs(buf: &[u8], pos: usize) -> (res: Result<(Vec<(String, Vec<u8>)>, usize), FormatError>)
    requires
        pos <= buf@.len(),
    ensures
        match res {
            Ok((v, p)) => dec_attrs(buf@.skip(pos as int)) == Ok::<(Seq<(Seq<char>, Seq<u8>)>, int), FormatError>((attrs_view(v@), p - pos)),
            Err(e) => dec_attrs(buf@.skip(pos as int)) == Err::<(Seq<(Seq<char>, Seq<u8>)>, int), FormatError>(e),
        },
        res matches Ok((_, p)) ==> pos < p <= buf@.len(),
{
    let (n, p0) = match get_u64(buf, pos) {
        Ok(x) => x,
        Err(e) => return Err(e),
    };
    let ghost b = buf@.skip(p0 as int);
    proof { lemma_skip_skip(buf@, pos as int, p0 - pos); }
    let mut v: Vec<(String, Vec<u8>)> = Vec::new();
    let mut p = p0;
    let mut i: u64 = 0;
    assert(attrs_view(v@) =~= Seq::<(Seq<char>, Seq<u8>)>::empty());
    while i < n
        invariant
            b == buf@.skip(p0 as int),
            b == buf@.skip(pos as int).skip(p0 - pos),
            dec_u64(buf@.skip(pos as int)) == Ok::<(u64, int), FormatError>((n, p0 - pos)),
            pos < p0 <= p <= buf@.len(),
            i <= n,
            dec_attr_list(b, i as nat) == Ok::<(Seq<(Seq<char>, Seq<u8>)>, int), FormatError>(
                (attrs_view(v@), p - p0),
            ),
        decreases n - i,
    {
        proof { lemma_skip_skip(buf@, p0 as int, p - p0); }
        let (k, p1) = match get_text(buf, p) {
            Ok(x) => x,
            Err(e) => {
                proof {
                    lemma_attr_list_err(b, (i + 1) as nat, n as nat);
                }
                return Err(e);
            },
        };
        proof {
            lemma_skip_skip(buf@, p as int, p1 - p);
            lemma_skip_skip(buf@, p0 as int, p - p0);
            assert(b.skip(p - p0).skip(p1 - p) == buf@.skip(p1 as int));
        }
        let (val, p2) = match get_bytes(buf, p1) {
            Ok(x) => x,
            Err(e) => {
                proof {
                    lemma_attr_list_err(b, (i + 1) as nat, n as nat);
                }
                return Err(e);
            },
        };
        attrs_insert(&mut v, k, val);
        p = p2;
        i = i + 1;
    }
    Ok((v, p))
}

#[verifier::spinoff_prover]
fn get_fields(buf: &[u8], pos: usize) -> (res: Result<(Vec<(String, String)>, usize), FormatError>)
    requires
        pos <= buf@.len(),
    ensures
        match res {
            Ok((v, p)) => dec_fields(buf@.skip(pos as int)) == Ok::<(Seq<(Seq<char>, Seq<char>)>, int), FormatError>((fields_view(v@), p - pos)),
            Err(e) => dec_fields(buf@.skip(pos as int)) == Err::<(Seq<(Seq<char>, Seq<char>)>, int), FormatError>(e),
        },
        res matches Ok((_, p)) ==> pos < p <= buf@.len(),
{
    let (n, p0) = match get_u64(buf, pos) {
        Ok(x) => x,
        Err(e) => return Err(e),
    };
    let ghost b = buf@.skip(p0 as int);
    proof { lemma_skip_skip(buf@, pos as int, p0 - pos); }
    let mut v: Vec<(String, String)> = Vec::new();
    let mut p = p0;
    let mut i: u64 = 0;
    assert(fields_view(v@) =~= Seq::<(Seq<char>, Seq<char>)>::empty());
    while i < n
        invariant
            b == buf@.skip(p0 as int),
            b == buf@.skip(pos as int).skip(p0 - pos),
            dec_u64(buf@.skip(pos as int)) == Ok::<(u64, int), FormatError>((n, p0 - pos)),
            pos < p0 <= p <= buf@.len(),
            i <= n,
            dec_field_list(b, i as nat) == Ok::<(Seq<(Seq<char>, Seq<char>)>, int), FormatError>(
                (fields_view(v@), p - p0),
            ),
        decreases n - i,
    {
        proof { lemma_skip_skip(buf@, p0 as int, p - p0); }
        let (k, p1) = match get_text(buf, p) {
            Ok(x) => x,
            Err(e) => {
                proof {
                    lemma_field_list_err(b, (i + 1) as nat, n as nat);
                }
                return Err(e);
            },
        };
        proof {
            lemma_skip_skip(buf@, p as int, p1 - p);
            lemma_skip_skip(buf@, p0 as int, p - p0);
            assert(b.skip(p - p0).skip(p1 - p) == buf@.skip(p1 as int));
        }
        let (val, p2) = match get_text(buf, p1) {
            Ok(x) => x,
            Err(e) => {
                proof {
                    lemma_field_list_err(b, (i + 1) as nat, n as nat);
                }
                return Err(e);
            },
        };
        fields_insert(&mut v, k, val);
        p = p2;
        i = i + 1;
    }
    Ok((v, p))
}

/// The entry fields from the permissions on, for an entry whose earlier
/// fields are given.
#[verifier::spinoff_prover]
fn get_entry_tail(
    buf: &[u8],
    pos: usize,
    path: String,
    original_size: u64,
    compressed_size: u64,
    compression: CompressionAlgorithm,
    file_type: FileType,
    data_offset: u64,
    checksum: u32,
    Ghost(used): Ghost<int>,
) -> (res: Result<(FileEntry, usize), FormatError>)
    requires
        pos <= buf@.len(),
    ensures
        match res {
            Ok((e, p)) => dec_entry_tail(buf@.skip(pos as int), path@, original_size, compressed_size, compression, file_type, data_offset, checksum, used) == Ok::<(EntryModel, int), FormatError>((e@, used + p - pos)),
            Err(err) => dec_entry_tail(buf@.skip(pos as int), path@, original_size, compressed_size, compression, file_type, data_offset, checksum, used) == Err::<(EntryModel, int), FormatError>(err),
        },
        res matches Ok((_, p)) ==> pos < p <= buf@.len(),
{
    let (permissions, p1) = match get_u32(buf, pos) {
        Ok(x) => x,
        Err(e) => return Err(e),
    };
    proof { lemma_skip_skip(buf@, pos as int, p1 - pos); }
    let (created, p2) = match get_opt_time(buf, p1) {
        Ok(x) => x,
        Err(e) => return Err(e),
    };
    proof { lemma_skip_skip(buf@, p1 as int, p2 - p1); }
    let (modified, p3) = match get_opt_time(buf, p2) {
        Ok(x) => x,
        Err(e) => return Err(e),
    };
    proof { lemma_skip_skip(buf@, p2 as int, p3 - p2); }
    let (accessed, p4) = match get_opt_time(buf, p3) {
        Ok(x) => x,
        Err(e) => return Err(e),
    };
    proof { lemma_skip_skip(buf@, p3 as int, p4 - p3); }
    let (is_directory, p5) = match get_bool(buf, p4) {
        Ok(x) => x,
        Err(e) => return Err(e),
    };
    proof { lemma_skip_skip(buf@, p4 as int, p5 - p4); }
    let (extended_attrs, p6) = match get_attrs(buf, p5) {
        Ok(x) => x,
        Err(e) => return Err(e),
    };
    let e = FileEntry {
        path,
        original_size,
        compressed_size,
        compression,
        file_type,
        data_offset,
        checksum,
        permissions,
        created,
        modified,
        accessed,
        is_directory,
        extended_attrs,
    };
    Ok((e, p6))
}

#[verifier::spinoff_prover]
fn get_entry_mid(
    buf: &[u8],
    pos: usize,
    path: String,
    original_size: u64,
    compressed_size: u64,
    Ghost(used): Ghost<int>,
) -> (res: Result<(FileEntry, usize), FormatError>)
    requires
        pos <= buf@.len(),
    ensures
        match res {
            Ok((e, p)) => dec_entry_mid(buf@.skip(pos as int), path@, original_size, compressed_size, used) == Ok::<(EntryModel, int), FormatError>((e@, used + p - pos)),
            Err(err) => dec_entry_mid(buf@.skip(pos as int), path@, original_size, compressed_size, used) == Err::<(EntryModel, int), FormatError>(err),
        },
        res matches Ok((_, p)) ==> pos < p <= buf@.len(),
{
    let (compression, p4) = match get_compression(buf, pos) {
        Ok(x) => x,
        Err(e) => return Err(e),
    };
    proof { lemma_skip_skip(buf@, pos as int, p4 - pos); }
    let (file_type, p5) = match get_file_type(buf, p4) {
        Ok(x) => x,
        Err(e) => return Err(e),
    };
    proof { lemma_skip_skip(buf@, p4 as int, p5 - p4); }
    let (data_offset, p6) = match get_u64(buf, p5) {
        Ok(x) => x,
        Err(e) => return Err(e),
    };
    proof { lemma_skip_skip(buf@, p5 as int, p6 - p5); }
    let (checksum, p7) = match get_u32(buf, p6) {
        Ok(x) => x,
        Err(e) => return Err(e),
    };
    proof { lemma_skip_skip(buf@, p6 as int, p7 - p6); }
    get_entry_tail(
        buf,
        p7,
        path,
        original_size,
        compressed_size,
        compression,
        file_type,
        data_offset,
        checksum,
        Ghost(used + p7 - pos),
    )
}

/// Decodes a file entry at `pos`.
#[verifier::spinoff_prover]
pub fn get_entry(buf: &[u8], pos: usize) -> (res: Result<(FileEntry, usize), FormatError>)
    requires
        pos <= buf@.len(),
    ensures
        match res {
            Ok((e, p)) => dec_entry(buf@.skip(pos as int)) == Ok::<(EntryModel, int), FormatError>((e@, p - pos)),
            Err(err) => dec_entry(buf@.skip(pos as int)) == Err::<(EntryModel, int), FormatError>(err),
        },
        res matches Ok((_, p)) ==> pos < p <= buf@.len(),
{
    let (path, p1) = match get_text(buf, pos) {
        Ok(x) => x,
        Err(e) => return Err(e),
    };
    proof { lemma_skip_skip(buf@, pos as int, p1 - pos); }
    let (original_size, p2) = match get_u64(buf, p1) {
        Ok(x) => x,
        Err(e) => return Err(e),
    };
    proof { lemma_skip_skip(buf@, p1 as int, p2 - p1); }
    let (compressed_size, p3) = match get_u64(buf, p2) {
        Ok(x) => x,
        Err(e) => return Err(e),
    };
    proof { lemma_skip_skip(buf@, p2 as int, p3 - p2); }
    get_entry_mid(buf, p3, path, original_size, compressed_size, Ghost(p3 - pos))
}

fn get_opt_text(buf: &[u8], pos: usize) -> (res: Result<(Option<String>, usize), FormatError>)
    requires
        pos <= buf@.len(),
    ensures
        match res {
            Ok((v, p)) => dec_opt_text(buf@.skip(pos as int)) == Ok::<(Option<Seq<char>>, int), FormatError>((opt_text_view(v), p - pos)),
            Err(e) => dec_opt_text(buf@.skip(pos as int)) == Err::<(Option<Seq<char>>, int), FormatError>(e),
        },
        res matches Ok((_, p)) ==> pos < p <= buf@.len(),
{
    let (present, p1) = match get_tag(buf, pos) {
        Ok(x) => x,
        Err(e) => return Err(e),
    };
    if !present {
        return Ok((None, p1));
    }
    proof { lemma_skip_skip(buf@, pos as int, p1 - pos); }
    match get_text(buf, p1) {
        Ok((t, p2)) => Ok((Some(t), p2)),
        Err(e) => Err(e),
    }
}

#[verifier::spinoff_prover]
#[verifier::rlimit(50)]
fn get_entries(buf: &[u8], pos: usize, n: u64) -> (res: Result<(Vec<FileEntry>, usize), FormatError>)
    requires
        pos <= buf@.len(),
    ensures
        match res {
            Ok((v, p)) => dec_entry_list(buf@.skip(pos as int), n as nat) == Ok::<(Seq<EntryModel>, int), FormatError>((entries_view(v@), p - pos)),
            Err(e) => dec_entry_list(buf@.skip(pos as int), n as nat) == Err::<(Seq<EntryModel>, int), FormatError>(e),
        },
        res matches Ok((_, p)) ==> pos <= p <= buf@.len(),
{
    let ghost b = buf@.skip(pos as int);
    let mut v: Vec<FileEntry> = Vec::new();
    let mut p = pos;
    let mut i: u64 = 0;
    assert(entries_view(v@) =~= Seq::<EntryModel>::empty());
    while i < n
        invariant
            b == buf@.skip(pos as int),
            pos <= p <= buf@.len(),
            i <= n,
            dec_entry_list(b, i as nat) == Ok::<(Seq<EntryModel>, int), FormatError>(
                (entries_view(v@), p - pos),
            ),
        decreases n - i,
    {
        proof { lemma_skip_skip(buf@, pos as int, p - pos); }
        let (e, p1) = match get_entry(buf, p) {
            Ok(x) => x,
            Err(err) => {
                proof {
                    lemma_entry_list_err(b, (i + 1) as nat, n as nat);
                }
                return Err(err);
            },
        };
        let ghost ev = e@;
        let ghost before = v@;
        v.push(e);
        assert(entries_view(v@) =~= entries_view(before).push(ev));
        p = p1;
        i = i + 1;
    }
    Ok((v, p))
}

/// Decodes archive metadata from the front of `buf`.
#[verifier::spinoff_prover]
#[verifier::rlimit(50)]
pub fn decode_metadata(buf: &[u8]) -> (res: Result<ArchiveMetadata, FormatError>)
    ensures
        match res {
            Ok(m) => dec_metadata(buf@) matches Ok((mm, _)) && mm == m@,
            Err(e) => dec_metadata(buf@) == Err::<(MetadataModel, int), FormatError>(e),
        },
{
    let ghost b = buf@;
    assert(b.skip(0) =~= b);
    let (count, p0) = match get_u64(buf, 0) {
        Ok(x) => x,
        Err(e) => return Err(e),
    };
    let (entries, p1) = match get_entries(buf, p0, count) {
        Ok(x) => x,
        Err(e) => return Err(e),
    };
    proof { lemma_skip_skip(b, p0 as int, p1 - p0); }
    let (comment, p2) = match get_opt_text(buf, p1) {
        Ok(x) => x,
        Err(e) => return Err(e),
    };
    proof { lemma_skip_skip(b, p1 as int, p2 - p1); }
    let (creator, p3) = match get_text(buf, p2) {
        Ok(x) => x,
        Err(e) => return Err(e),
    };
    proof { lemma_skip_skip(b, p2 as int, p3 - p2); }
    let (created_at, p4) = match get_time(buf, p3) {
        Ok(x) => x,
        Err(e) => return Err(e),
    };
    proof { lemma_skip_skip(b, p3 as int, p4 - p3); }
    let (modified_at, p5) = match get_time(buf, p4) {
        Ok(x) => x,
        Err(e) => return Err(e),
    };
    proof { lemma_skip_skip(b, p4 as int, p5 - p4); }
    let (custom_fields, _p6) = match get_fields(buf, p5) {
        Ok(x) => x,
        Err(e) => return Err(e),
    };
    Ok(ArchiveMetadata { entries, comment, creator, created_at, modified_at, custom_fields })
}

} // verus!
