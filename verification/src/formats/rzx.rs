//! Reading and writing `.rzx` archives: a header, the metadata block
//! (encrypted if the archive is), whose offset, size and CRC-32 the header
//! records, and the data section with the stored data of each file
//! (compressed, then encrypted if the archive is). An entry's data offset
//! counts from the start of the data section, right after the metadata block.
use vstd::prelude::*;
use vstd::slice::slice_subrange;
use vstd::utf8::{decode_utf8, encode_utf8};
use crate::rzx_core::checksum::{crc32, crc32_of};
use crate::rzx_core::codec::{FormatError, dec_u16, get_u16, put_slice};
use crate::rzx_core::compression::{
    compress, compressed_form, decompress, decompress_error, decompressed_form,
};
use crate::rzx_core::encryption::{
    aes_gcm_max_plaintext, decrypt, decrypted_form, derive_key, encrypt, encrypted_form,
    generate_nonce, generate_salt, pbkdf2_sha256, stored_len, KDF_ROUNDS,
};
use crate::rzx_core::header::{
    HeaderModel, RzxHeader, dec_header, enc_header, header_check, header_len, header_shaped,
    lemma_header_roundtrip, opt_array_view,
};
use crate::rzx_core::metadata::{
    ArchiveMetadata, EntryModel, FileEntry, FsMetadata, MetadataModel, Time, count_kind, current_time,
    duplicate_index, entries_check, entries_sorted, entries_view, key_class, lemma_check_by_contents,
    new_entry, opt_text_view, shares_path, some_entry_fails, sum_compressed, sum_original,
};
use crate::rzx_core::metadata_format::{
    dec_metadata, enc_metadata, entry_encodable, lemma_metadata_roundtrip, metadata_bounded,
    metadata_encodable, metadata_valid, time_encodable, lemma_entry_list_len_by_contents, entry_valid,
    time_wf,
};
use crate::rzx_core::{CompressionAlgorithm, compression_from_lowercase};
use crate::rzx_core::path::{
    ROOT_DIR, comps_prefix, components, lemma_root_path, parent_components, path_parent,
    path_strip_prefix, stripped,
};
use crate::rzx_core::text::{
    contains_bytes, glob_match, glob_matches, has_wildcard, lowercase, str_contains,
    str_has_wildcard, strings_bytes, strings_chars,
};
use crate::rzx_core::{Corruption, EncryptionAlgorithm, RzxError, RzxResult, RZX_VERSION, rzx_magic};

verus! {

/// What a reader learns when it opens an archive.
pub struct Opened {
    pub header: HeaderModel,
    pub metadata: MetadataModel,
    /// The derived key (empty without encryption).
    pub key: Seq<u8>,
}

/// The bytes of an optional password.
pub open spec fn password_bytes(p: Option<&str>) -> Option<Seq<u8>> {
    match p {
        Some(s) => Some(encode_utf8(s@)),
        None => None,
    }
}

/// The bytes from `start` to `end`, cut short at the end of `a` (as a read
/// of at most `end - start` bytes after seeking to `start` gives them).
pub open spec fn read_span(a: Seq<u8>, start: int, end: int) -> Seq<u8> {
    if start >= a.len() {
        Seq::empty()
    } else if end > a.len() {
        a.subrange(start, a.len() as int)
    } else {
        a.subrange(start, end)
    }
}

/// Opening an archive: check the magic and the version, decode and check the
/// header, derive the key from the
/// password (an encrypted archive needs one), read the metadata block,
/// decrypt it, compare its CRC-32 with the header's, and decode it.
pub open spec fn archive_open(a: Seq<u8>, password: Option<Seq<u8>>) -> Result<Opened, RzxError> {
    match header_prefix(a) {
        Err(e) => Err(e),
        Ok(_) => open_after_prefix(a, password),
    }
}

/// The first check of an archive: its magic bytes, then its version, each
/// as soon as its bytes are read.
pub open spec fn header_prefix(a: Seq<u8>) -> Result<(), RzxError> {
    if a.len() < 4 {
        Err(RzxError::Serialization(FormatError::UnexpectedEnd))
    } else if a.take(4) != rzx_magic() {
        Err(RzxError::InvalidMagic)
    } else {
        match dec_u16(a.skip(4)) {
            Err(e) => Err(RzxError::Serialization(e)),
            Ok((v, _)) => if v > RZX_VERSION {
                Err(RzxError::UnsupportedVersion(v))
            } else {
                Ok(())
            },
        }
    }
}

/// Opening an archive whose magic and version check out.
pub open spec fn open_after_prefix(a: Seq<u8>, password: Option<Seq<u8>>) -> Result<Opened, RzxError> {
    match dec_header(a) {
        Err(e) => Err(RzxError::Serialization(e)),
        Ok((h, _)) => match header_check(h) {
            Err(e) => Err(e),
            Ok(_) => {
                let encrypted = h.encryption_algorithm != EncryptionAlgorithm::NoEncryption;
                if encrypted && password is None {
                    Err(RzxError::InvalidPassword)
                } else {
                    let key = if encrypted {
                        pbkdf2_sha256(password->0, h.salt->0, KDF_ROUNDS)
                    } else {
                        Seq::empty()
                    };
                    let start = h.metadata_offset as int;
                    let end = h.metadata_offset + h.metadata_size;
                    if end > a.len() {
                        Err(RzxError::Io)
                    } else {
                        let nonce = if encrypted { h.nonce->0 } else { Seq::empty() };
                        match decrypted_form(h.encryption_algorithm, key, nonce, a.subrange(start, end)) {
                            None => Err(RzxError::DecryptionError),
                            Some(plain) => if crc32(plain) != h.metadata_checksum {
                                Err(RzxError::ChecksumMismatch)
                            } else {
                                match dec_metadata(plain) {
                                    Err(e) => Err(RzxError::Serialization(e)),
                                    Ok((m, _)) => Ok(
                                        Opened { header: h, metadata: m, key },
                                    ),
                                }
                            },
                        }
                    }
                }
            },
        },
    }
}

/// Where the data section of an opened archive starts: right after the
/// metadata block.
pub open spec fn data_start(o: Opened) -> int {
    o.header.metadata_offset + o.header.metadata_size
}

/// The nonce of an opened archive (empty without encryption).
pub open spec fn opened_nonce(o: Opened) -> Seq<u8> {
    if o.header.encryption_algorithm != EncryptionAlgorithm::NoEncryption {
        o.header.nonce->0
    } else {
        Seq::empty()
    }
}

/// Extracting an entry from an opened archive: a directory has no data;
/// a file's stored bytes are read from the data section, decrypted,
/// decompressed and checked against the entry's CRC-32.
pub open spec fn archive_extract(a: Seq<u8>, o: Opened, e: EntryModel) -> Result<Seq<u8>, RzxError> {
    if e.is_directory {
        Ok(Seq::empty())
    } else {
        let start = data_start(o) + e.data_offset;
        let stored = read_span(a, start, start + e.compressed_size);
        match decrypted_form(o.header.encryption_algorithm, o.key, opened_nonce(o), stored) {
            None => Err(RzxError::DecryptionError),
            Some(c) => match decompressed_form(e.compression, c) {
                None => Err(decompress_error(e.compression)),
                Some(d) => if crc32(d) != e.checksum {
                    Err(RzxError::ChecksumMismatch)
                } else {
                    Ok(d)
                },
            },
        }
    }
}

/// Whatever a file entry extracts to has the CRC-32 that the entry records.
pub proof fn lemma_extracted_matches_checksum(a: Seq<u8>, o: Opened, e: EntryModel)
    ensures
        archive_extract(a, o, e) matches Ok(d) ==> e.is_directory || crc32(d) == e.checksum,
{
}

/// RZX archive reader over the bytes of a whole archive.
pub struct RzxReader {
    archive: Vec<u8>,
    header: RzxHeader,
    metadata: ArchiveMetadata,
    encryption_key: [u8; 32],
}

impl RzxReader {
    #[verifier::type_invariant]
    spec fn reader_inv(self) -> bool {
        &&& header_check(self.header@) is Ok
        &&& self.header.metadata_offset + self.header.metadata_size <= self.archive@.len()
    }

    /// The archive's bytes.
    pub closed spec fn archive(&self) -> Seq<u8> {
        self.archive@
    }

    /// What the reader learned when it opened the archive.
    pub closed spec fn opened(&self) -> Opened {
        Opened {
            header: self.header@,
            metadata: self.metadata@,
            key: if self.header.encryption_algorithm != EncryptionAlgorithm::NoEncryption {
                self.encryption_key@
            } else {
                Seq::empty()
            },
        }
    }

    /// Opens an archive.
    pub fn new(archive: Vec<u8>, password: Option<&str>) -> (res: RzxResult<Self>)
        ensures
            match archive_open(archive@, password_bytes(password)) {
                Ok(o) => res matches Ok(r) && r.opened() == o && r.archive() == archive@,
                Err(e) => res matches Err(e2) && e2 == e,
            },
    {
        let bytes = archive.as_slice();
        if bytes.len() < 4 {
            return Err(RzxError::Serialization(FormatError::UnexpectedEnd));
        }
        if !(bytes[0] == 82 && bytes[1] == 122 && bytes[2] == 88 && bytes[3] == 0) {
            assert(bytes@.take(4) != rzx_magic()) by {
                if bytes@.take(4) == rzx_magic() {
                    assert(bytes@.take(4)[0] == bytes@[0]);
                    assert(bytes@.take(4)[1] == bytes@[1]);
                    assert(bytes@.take(4)[2] == bytes@[2]);
                    assert(bytes@.take(4)[3] == bytes@[3]);
                }
            }
            return Err(RzxError::InvalidMagic);
        }
        assert(bytes@.take(4) =~= rzx_magic());
        match get_u16(bytes, 4) {
            Err(e) => return Err(RzxError::Serialization(e)),
            Ok((v, _)) => {
                if v > RZX_VERSION {
                    return Err(RzxError::UnsupportedVersion(v));
                }
            },
        }
        let (header, _) = match RzxHeader::decode(archive.as_slice()) {
            Ok(x) => x,
            Err(e) => return Err(RzxError::Serialization(e)),
        };
        match header.validate() {
            Ok(()) => {},
            Err(e) => return Err(e),
        }
        let encrypted = match header.encryption_algorithm {
            EncryptionAlgorithm::NoEncryption => false,
            EncryptionAlgorithm::Aes256Gcm => true,
        };
        let mut key = [0u8; 32];
        let mut nonce = [0u8; 12];
        if encrypted {
            let p = match password {
                Some(p) => p,
                None => return Err(RzxError::InvalidPassword),
            };
            match (&header.salt, &header.nonce) {
                (Some(salt), Some(n)) => {
                    key = derive_key(p.as_bytes(), salt);
                    nonce = *n;
                },
                _ => {
                    return Err(RzxError::InvalidPassword);
                },
            }
        }
        let start = header.metadata_offset;
        let size = header.metadata_size;
        if start > archive.len() as u64 || size > archive.len() as u64 - start {
            return Err(RzxError::Io);
        }
        let stored = slice_subrange(archive.as_slice(), start as usize, (start + size) as usize);
        let plain = match decrypt(header.encryption_algorithm, &key, &nonce, stored) {
            Ok(p) => p,
            Err(e) => return Err(e),
        };
        if crc32_of(plain.as_slice()) != header.metadata_checksum {
            return Err(RzxError::ChecksumMismatch);
        }
        let metadata = match ArchiveMetadata::from_bytes(plain.as_slice()) {
            Ok(m) => m,
            Err(e) => return Err(e),
        };
        Ok(RzxReader { archive, header, metadata, encryption_key: key })
    }

    /// The archive's metadata.
    pub fn metadata(&self) -> (m: &ArchiveMetadata)
        ensures
            m@ == self.opened().metadata,
    {
        &self.metadata
    }

    /// Gives up the reader for the archive's metadata.
    pub fn into_metadata(self) -> (m: ArchiveMetadata)
        ensures
            m@ == self.opened().metadata,
    {
        self.metadata
    }

    /// The contents of an entry: empty for a directory; for a file, its
    /// stored bytes decrypted and decompressed, checked against its CRC-32.
    pub fn extract_file(&self, entry: &FileEntry) -> (res: RzxResult<Vec<u8>>)
        ensures
            match archive_extract(self.archive(), self.opened(), entry@) {
                Ok(d) => res matches Ok(v) && v@ == d,
                Err(e) => res matches Err(e2) && e2 == e,
            },
    {
        proof {
            use_type_invariant(self);
        }
        if entry.is_directory {
            return Ok(Vec::new());
        }
        let len = self.archive.len();
        let ds = (self.header.metadata_offset + self.header.metadata_size) as usize;
        let stored: &[u8] = if entry.data_offset >= (len - ds) as u64 {
            &[]
        } else {
            let start = ds + (entry.data_offset as usize);
            let end = if entry.compressed_size > (len - start) as u64 {
                len
            } else {
                start + (entry.compressed_size as usize)
            };
            slice_subrange(self.archive.as_slice(), start, end)
        };
        assert(stored@ == read_span(
            self.archive@,
            data_start(self.opened()) + entry.data_offset,
            data_start(self.opened()) + entry.data_offset + entry.compressed_size,
        ));
        let nonce = match &self.header.nonce {
            Some(n) => *n,
            None => [0u8; 12],
        };
        let compressed = match decrypt(self.header.encryption_algorithm, &self.encryption_key, &nonce, stored) {
            Ok(c) => c,
            Err(e) => return Err(e),
        };
        let data = match decompress(entry.compression, compressed.as_slice()) {
            Ok(d) => d,
            Err(e) => return Err(e),
        };
        if crc32_of(data.as_slice()) != entry.checksum {
            return Err(RzxError::ChecksumMismatch);
        }
        Ok(data)
    }
}

/// What the key and nonce of an optional pair of arrays stand for.
pub open spec fn opt_bytes<const N: usize>(o: Option<[u8; N]>) -> Seq<u8> {
    match o {
        Some(a) => a@,
        None => Seq::empty(),
    }
}

/// The data of a file entry is stored at its offset: the stored bytes
/// decrypt and decompress to `contents`, whose CRC-32 the entry holds.
pub open spec fn stored_at(
    data: Seq<u8>,
    alg: EncryptionAlgorithm,
    key: Seq<u8>,
    nonce: Seq<u8>,
    e: EntryModel,
    contents: Seq<u8>,
) -> bool {
    &&& e.data_offset + e.compressed_size <= data.len()
    &&& match decrypted_form(
        alg,
        key,
        nonce,
        data.subrange(e.data_offset as int, e.data_offset + e.compressed_size),
    ) {
        Some(c) => decompressed_form(e.compression, c) == Some(contents),
        None => false,
    }
    &&& crc32(contents) == e.checksum
}

pub open spec fn first_of(added: Seq<(EntryModel, Seq<u8>)>) -> Seq<EntryModel> {
    added.map_values(|p: (EntryModel, Seq<u8>)| p.0)
}

/// Largest data section whose offsets and sizes fit in 64 bits.
pub open spec fn max_data_len() -> int {
    u64::MAX as int
}

/// RZX archive writer: collects entries and their stored data, and
/// produces the archive's bytes when finalized.
pub struct RzxWriter {
    data: Vec<u8>,
    metadata: ArchiveMetadata,
    current_data_offset: u64,
    encryption_algorithm: EncryptionAlgorithm,
    encryption_key: Option<[u8; 32]>,
    salt: Option<[u8; 16]>,
    nonce: Option<[u8; 12]>,
    password: Ghost<Seq<u8>>,
    added: Ghost<Seq<(EntryModel, Seq<u8>)>>,
}

impl RzxWriter {
    /// The data section written so far.
    pub closed spec fn data(&self) -> Seq<u8> {
        self.data@
    }

    /// The metadata collected so far.
    pub closed spec fn metadata_view(&self) -> MetadataModel {
        self.metadata@
    }

    /// The encryption algorithm of the archive.
    pub closed spec fn algorithm(&self) -> EncryptionAlgorithm {
        self.encryption_algorithm
    }

    /// The password bytes that the key was derived from.
    pub closed spec fn password(&self) -> Seq<u8> {
        self.password@
    }

    /// Every entry added, with the contents given for it (empty for a
    /// directory), in the order of the calls.
    pub closed spec fn added(&self) -> Seq<(EntryModel, Seq<u8>)> {
        self.added@
    }

    /// The writer's invariant.
    pub closed spec fn wf(&self) -> bool {
        &&& self.current_data_offset == self.data@.len()
        &&& self.data@.len() <= max_data_len()
        &&& self.encryption_algorithm == EncryptionAlgorithm::NoEncryption ==> self.salt is None
            && self.nonce is None && self.encryption_key is None
        &&& self.encryption_algorithm != EncryptionAlgorithm::NoEncryption ==> {
            &&& self.salt is Some
            &&& self.nonce is Some
            &&& self.encryption_key is Some
            &&& opt_bytes(self.encryption_key) == pbkdf2_sha256(
                self.password@,
                opt_bytes(self.salt),
                KDF_ROUNDS,
            )
        }
        &&& entries_view(self.metadata.entries@).to_multiset() == first_of(self.added@).to_multiset()
        &&& forall|k: int|
            0 <= k < self.added@.len() ==> {
                let (e, c) = #[trigger] self.added@[k];
                if e.is_directory {
                    c == Seq::<u8>::empty()
                } else {
                    stored_at(
                        self.data@,
                        self.encryption_algorithm,
                        opt_bytes(self.encryption_key),
                        opt_bytes(self.nonce),
                        e,
                        c,
                    )
                }
            }
    }

    /// A writer for a new archive created at time `now`. An encrypted archive gets a salt of 16
    /// and a nonce of 12 random bytes, and a key derived from the password
    /// (the empty password if none is given) and the salt; which bytes the
    /// random source gives is not stated.
    pub fn new_at(encryption_algorithm: EncryptionAlgorithm, password: Option<&str>, now: Time) -> (res:
        RzxResult<Self>)
        ensures
            res matches Ok(w) && {
                &&& w.wf()
                &&& w.data().len() == 0
                &&& w.added().len() == 0
                &&& w.metadata_view().entries.len() == 0
                &&& w.metadata_view().comment is None
                &&& w.metadata_view().creator == "rzx-compressor v0.1.0"@
                &&& w.metadata_view().created_at == now
                &&& w.metadata_view().modified_at == now
                &&& w.metadata_view().custom_fields.len() == 0
                &&& w.algorithm() == encryption_algorithm
                &&& w.password() == match password {
                    Some(p) => encode_utf8(p@),
                    None => Seq::<u8>::empty(),
                }
                &&& (encryption_algorithm == EncryptionAlgorithm::NoEncryption) == (w.salt_view() is None)
                &&& (encryption_algorithm == EncryptionAlgorithm::NoEncryption) == (w.nonce_view() is None)
                &&& w.salt_view() matches Some(s) ==> s.len() == 16 && w.key_bytes() == pbkdf2_sha256(
                    w.password(),
                    s,
                    KDF_ROUNDS,
                )
                &&& w.nonce_view() matches Some(n) ==> n.len() == 12 && w.nonce_bytes() == n
            },
    {
        let pw: &str = match password {
            Some(p) => p,
            None => "",
        };
        proof {
            reveal_strlit("");
        }
        let (salt, nonce, key) = match encryption_algorithm {
            EncryptionAlgorithm::NoEncryption => (None, None, None),
            EncryptionAlgorithm::Aes256Gcm => {
                let salt = generate_salt();
                let nonce = generate_nonce();
                let key = derive_key(pw.as_bytes(), &salt);
                (Some(salt), Some(nonce), Some(key))
            },
        };
        let metadata = ArchiveMetadata::new_at(now);
        let w = RzxWriter {
            data: Vec::new(),
            metadata,
            current_data_offset: 0,
            encryption_algorithm,
            encryption_key: key,
            salt,
            nonce,
            password: Ghost(encode_utf8(pw@)),
            added: Ghost(Seq::empty()),
        };
        assert(entries_view(w.metadata.entries@) =~= Seq::<EntryModel>::empty());
        assert(first_of(w.added@) =~= Seq::<EntryModel>::empty());
        assert(encode_utf8(Seq::<char>::empty()) =~= Seq::<u8>::empty());
        Ok(w)
    }

    /// A writer for a new archive created now (`new_at` with the clock's
    /// reading). An encrypted archive gets a salt of 16
    /// and a nonce of 12 random bytes, and a key derived from the password
    /// (the empty password if none is given) and the salt; which bytes the
    /// random source gives is not stated.
    pub fn new(encryption_algorithm: EncryptionAlgorithm, password: Option<&str>) -> (res:
        RzxResult<Self>)
        ensures
            res matches Ok(w) && {
                &&& w.wf()
                &&& w.data().len() == 0
                &&& w.added().len() == 0
                &&& w.metadata_view().entries.len() == 0
                &&& w.metadata_view().comment is None
                &&& w.metadata_view().creator == "rzx-compressor v0.1.0"@
                &&& w.metadata_view().created_at == w.metadata_view().modified_at
                &&& w.metadata_view().created_at matches Time::SinceEpoch(ts) ==> ts.nanos < 1_000_000_000
                &&& w.metadata_view().custom_fields.len() == 0
                &&& w.algorithm() == encryption_algorithm
                &&& w.password() == match password {
                    Some(p) => encode_utf8(p@),
                    None => Seq::<u8>::empty(),
                }
                &&& (encryption_algorithm == EncryptionAlgorithm::NoEncryption) == (w.salt_view() is None)
                &&& (encryption_algorithm == EncryptionAlgorithm::NoEncryption) == (w.nonce_view() is None)
                &&& w.salt_view() matches Some(s) ==> s.len() == 16 && w.key_bytes() == pbkdf2_sha256(
                    w.password(),
                    s,
                    KDF_ROUNDS,
                )
                &&& w.nonce_view() matches Some(n) ==> n.len() == 12 && w.nonce_bytes() == n
            },
    {
        let pw: &str = match password {
            Some(p) => p,
            None => "",
        };
        proof {
            reveal_strlit("");
        }
        let (salt, nonce, key) = match encryption_algorithm {
            EncryptionAlgorithm::NoEncryption => (None, None, None),
            EncryptionAlgorithm::Aes256Gcm => {
                let salt = generate_salt();
                let nonce = generate_nonce();
                let key = derive_key(pw.as_bytes(), &salt);
                (Some(salt), Some(nonce), Some(key))
            },
        };
        let now = current_time();
        Self::new_at(encryption_algorithm, password, now)
    }
}

/// An entry as the writer records a file: its checksum, size, offset and
/// stored size filled in.
pub open spec fn recorded_entry(e: EntryModel, contents: Seq<u8>, offset: int, stored_len: int) -> EntryModel {
    EntryModel {
        checksum: crc32(contents),
        original_size: contents.len() as u64,
        data_offset: offset as u64,
        compressed_size: stored_len as u64,
        ..e
    }
}

proof fn lemma_stored_at_extend(
    data: Seq<u8>,
    more: Seq<u8>,
    alg: EncryptionAlgorithm,
    key: Seq<u8>,
    nonce: Seq<u8>,
    e: EntryModel,
    c: Seq<u8>,
)
    requires
        stored_at(data, alg, key, nonce, e, c),
    ensures
        stored_at(data + more, alg, key, nonce, e, c),
{
    assert((data + more).subrange(e.data_offset as int, e.data_offset + e.compressed_size)
        =~= data.subrange(e.data_offset as int, e.data_offset + e.compressed_size));
}

/// Why adding an entry to a data section of `data_len` bytes fails, if it
/// does: a directory never fails; a file fails when the archive is encrypted
/// and its compressed form is longer than AES-GCM takes, or when its stored
/// form would make the data section longer than 64-bit offsets reach.
pub open spec fn add_error(
    alg: EncryptionAlgorithm,
    data_len: nat,
    e: EntryModel,
    contents: Seq<u8>,
    level: u8,
) -> Option<RzxError> {
    if e.is_directory {
        None
    } else {
        let c = compressed_form(e.compression, contents, level);
        if alg != EncryptionAlgorithm::NoEncryption && c.len() > aes_gcm_max_plaintext() {
            Some(RzxError::EncryptionError)
        } else if data_len + stored_len(alg, c.len()) > max_data_len() {
            Some(RzxError::SizeOverflow)
        } else {
            None
        }
    }
}

/// What adding an entry did to a writer: on success the entry, with its
/// checksum, size, offset and stored size for a file, is appended to the
/// metadata and to what was added, and the file's stored form to the data
/// section; an error is the one `add_error` gives, and leaves the writer as
/// it was.
pub open spec fn entry_added(
    before: RzxWriter,
    after: RzxWriter,
    fe: EntryModel,
    contents: Seq<u8>,
    level: u8,
    res: RzxResult<()>,
) -> bool {
    &&& after.wf()
    &&& after.algorithm() == before.algorithm()
    &&& after.password() == before.password()
    &&& after.key_bytes() == before.key_bytes()
    &&& after.nonce_bytes() == before.nonce_bytes()
    &&& match res {
        Ok(_) => {
            let e = if fe.is_directory {
                fe
            } else {
                recorded_entry(
                    fe,
                    contents,
                    before.data().len() as int,
                    after.data().len() - before.data().len(),
                )
            };
            &&& after.added() == before.added().push(
                (e, if fe.is_directory { Seq::empty() } else { contents }),
            )
            &&& after.metadata_view().entries == before.metadata_view().entries.push(e)
            &&& after.metadata_view() == (MetadataModel {
                entries: after.metadata_view().entries,
                modified_at: after.metadata_view().modified_at,
                ..before.metadata_view()
            })
            &&& after.data() == before.data() + (if fe.is_directory {
                Seq::empty()
            } else {
                encrypted_form(
                    before.algorithm(),
                    before.key_bytes(),
                    before.nonce_bytes(),
                    compressed_form(fe.compression, contents, level),
                )
            })
        },
        Err(e) => after == before,
    }
    &&& res is Ok <==> add_error(before.algorithm(), before.data().len(), fe, contents, level) is None
    &&& res matches Err(e) ==> add_error(before.algorithm(), before.data().len(), fe, contents, level)
        == Some(e)
    &&& res is Ok && !fe.is_directory ==> after.data().len() == before.data().len() + stored_len(
        before.algorithm(),
        compressed_form(fe.compression, contents, level).len(),
    )
}

impl RzxWriter {
    /// The key bytes (empty without encryption).
    pub closed spec fn key_bytes(&self) -> Seq<u8> {
        opt_bytes(self.encryption_key)
    }

    /// The nonce bytes (empty without encryption).
    pub closed spec fn nonce_bytes(&self) -> Seq<u8> {
        opt_bytes(self.nonce)
    }

    /// Adds an entry. A directory is recorded as it is. A file's contents
    /// get their CRC-32 and size recorded, are compressed with the entry's
    /// algorithm, encrypted if the archive is, and appended to the data
    /// section at the current offset; the entry records that offset and the
    /// stored size; the metadata's modification time becomes `now`. On an
    /// error nothing changes.
    pub fn add_entry_sequential_at(
        &mut self,
        file_entry: FileEntry,
        contents: &[u8],
        compression_level: u8,
        now: Time,
    ) -> (res: RzxResult<()>)
        requires
            old(self).wf(),
            !file_entry.is_directory && file_entry.compression == CompressionAlgorithm::Deflate
                ==> compression_level <= 10,
        ensures
            entry_added(*old(self), *final(self), file_entry@, contents@, compression_level, res),
            res is Ok ==> final(self).metadata_view().modified_at == now,
    {
        broadcast use vstd::seq_lib::group_to_multiset_ensures;

        let ghost old_added = self.added@;
        let ghost old_entries = entries_view(self.metadata.entries@);
        if file_entry.is_directory {
            let ghost ev = file_entry@;
            self.metadata.add_entry_at(file_entry, now);
            self.added = Ghost(self.added@.push((ev, Seq::<u8>::empty())));
            proof {
                assert(first_of(self.added@) =~= first_of(old_added).push(ev));
                assert(entries_view(self.metadata.entries@) == old_entries.push(ev));
                assert forall|k: int| 0 <= k < self.added@.len() implies {
                    let (e, c) = #[trigger] self.added@[k];
                    if e.is_directory {
                        c == Seq::<u8>::empty()
                    } else {
                        stored_at(self.data@, self.encryption_algorithm, opt_bytes(self.encryption_key), opt_bytes(self.nonce), e, c)
                    }
                } by {
                    if k < old_added.len() {
                        assert(self.added@[k] == old_added[k]);
                    }
                }
            }
            return Ok(());
        }
        let mut entry = file_entry;
        entry.checksum = crc32_of(contents);
        entry.original_size = contents.len() as u64;
        entry.data_offset = self.current_data_offset;
        let compressed = match compress(entry.compression, contents, compression_level) {
            Ok(c) => c,
            Err(e) => return Err(e),
        };
        let key = match &self.encryption_key {
            Some(k) => *k,
            None => [0u8; 32],
        };
        let nonce = match &self.nonce {
            Some(n) => *n,
            None => [0u8; 12],
        };
        let stored = match encrypt(self.encryption_algorithm, &key, &nonce, compressed.as_slice()) {
            Ok(v) => v,
            Err(e) => return Err(e),
        };
        let room: u64 = u64::MAX - self.current_data_offset;
        if stored.len() as u64 > room {
            return Err(RzxError::SizeOverflow);
        }
        entry.compressed_size = stored.len() as u64;
        let ghost old_data = self.data@;
        put_slice(&mut self.data, stored.as_slice());
        self.current_data_offset = self.current_data_offset + (stored.len() as u64);
        let ghost ev = entry@;
        self.metadata.add_entry_at(entry, now);
        self.added = Ghost(self.added@.push((ev, contents@)));
        proof {
            assert(first_of(self.added@) =~= first_of(old_added).push(ev));
            assert(entries_view(self.metadata.entries@) == old_entries.push(ev));
            let kb = opt_bytes(self.encryption_key);
            let nb = opt_bytes(self.nonce);
            assert(self.data@.subrange(ev.data_offset as int, ev.data_offset + ev.compressed_size)
                =~= stored@);
            assert forall|k: int| 0 <= k < self.added@.len() implies {
                let (e, c) = #[trigger] self.added@[k];
                if e.is_directory {
                    c == Seq::<u8>::empty()
                } else {
                    stored_at(self.data@, self.encryption_algorithm, kb, nb, e, c)
                }
            } by {
                if k < old_added.len() {
                    assert(self.added@[k] == old_added[k]);
                    let (e, c) = old_added[k];
                    if !e.is_directory {
                        lemma_stored_at_extend(old_data, stored@, self.encryption_algorithm, kb, nb, e, c);
                    }
                }
            }
        }
        Ok(())
    }

    /// Adds an entry as `add_entry_sequential_at` does, stamping the
    /// metadata with the clock's reading.
    pub fn add_entry_sequential(
        &mut self,
        file_entry: FileEntry,
        contents: &[u8],
        compression_level: u8,
    ) -> (res: RzxResult<()>)
        requires
            old(self).wf(),
            !file_entry.is_directory && file_entry.compression == CompressionAlgorithm::Deflate
                ==> compression_level <= 10,
        ensures
            entry_added(*old(self), *final(self), file_entry@, contents@, compression_level, res),
            res is Ok ==> (final(self).metadata_view().modified_at matches Time::SinceEpoch(ts) ==> ts.nanos
                < 1_000_000_000),
    {
        let now = current_time();
        self.add_entry_sequential_at(file_entry, contents, compression_level, now)
    }
}

/// The header of the archive that a writer in this state produces, for a
/// stored metadata block of `stored_len` bytes whose plain encoding is
/// `plain`.
pub open spec fn final_header(
    alg: EncryptionAlgorithm,
    salt: Option<Seq<u8>>,
    nonce: Option<Seq<u8>>,
    plain: Seq<u8>,
    stored_len: nat,
) -> HeaderModel {
    let h0 = HeaderModel {
        magic: rzx_magic(),
        version: 1,
        encryption_algorithm: alg,
        salt,
        nonce,
        metadata_offset: 0,
        metadata_size: 0,
        metadata_checksum: 0,
    };
    HeaderModel {
        metadata_offset: header_len(h0) as u64,
        metadata_size: stored_len as u64,
        metadata_checksum: crc32(plain),
        ..h0
    }
}

impl RzxWriter {
    /// The salt, as the header records it.
    pub closed spec fn salt_view(&self) -> Option<Seq<u8>> {
        opt_array_view(self.salt)
    }

    /// The nonce, as the header records it.
    pub closed spec fn nonce_view(&self) -> Option<Seq<u8>> {
        opt_array_view(self.nonce)
    }

    /// The archive that this writer's state gives with `stored` as its
    /// metadata block: the header, the block, and the data section.
    pub open spec fn archive_with(&self, stored: Seq<u8>) -> Seq<u8> {
        let plain = enc_metadata(self.metadata_view());
        enc_header(
            final_header(self.algorithm(), self.salt_view(), self.nonce_view(), plain, stored.len()),
        ) + stored + self.data()
    }

    /// Reading back what a writer produced: when the metadata passes its
    /// checks and its encoding decodes back to it, the archive opens with
    /// the writer's password (any password without encryption) and gives
    /// back the writer's metadata, and every entry extracts to the contents
    /// that were added for it.
    #[verifier::spinoff_prover]
    #[verifier::rlimit(40)]
    pub proof fn lemma_read_back(&self, pw: Option<Seq<u8>>, stored: Seq<u8>)
        requires
            self.wf(),
            decrypted_form(self.algorithm(), self.key_bytes(), self.nonce_bytes(), stored) == Some(
                enc_metadata(self.metadata_view()),
            ),
            metadata_bounded(self.metadata_view()),
            metadata_valid(self.metadata_view()),
            self.algorithm() != EncryptionAlgorithm::NoEncryption ==> pw == Some(self.password()),
            stored.len() <= u64::MAX,
        ensures
            self.reads_back(self.archive_with(stored), pw),
    {
        broadcast use vstd::seq_lib::group_to_multiset_ensures;

        let m = self.metadata@;
        let alg = self.encryption_algorithm;
        let key = opt_bytes(self.encryption_key);
        let nb = opt_bytes(self.nonce);
        let d = self.data@;
        let h = final_header(alg, opt_array_view(self.salt), opt_array_view(self.nonce), enc_metadata(m), stored.len());
        let hdr = enc_header(h);
        let a = self.archive_with(stored);
        assert(a =~= hdr + (stored + d));
        lemma_final_header(alg, opt_array_view(self.salt), opt_array_view(self.nonce), enc_metadata(m), stored.len());
        lemma_open_layout(h, stored, d, m, pw, key, nb);
        let o = Opened {
            header: h,
            metadata: m,
            key: if alg != EncryptionAlgorithm::NoEncryption { key } else { Seq::empty() },
        };
        assert(o.key == key && opened_nonce(o) == nb);
        lemma_header_roundtrip(h, Seq::empty());
        assert(archive_open(a, pw) == Ok::<Opened, RzxError>(o));
        assert forall|i: int| 0 <= i < o.metadata.entries.len() implies exists|k: int|
            0 <= k < self.added().len() && self.added()[k].0 == o.metadata.entries[i]
                && archive_extract(self.archive_with(stored), o, #[trigger] o.metadata.entries[i])
                == Ok::<Seq<u8>, RzxError>(self.added()[k].1) by {
            let e = m.entries[i];
            assert(m.entries.contains(e));
            assert(m.entries == entries_view(self.metadata.entries@));
            vstd::seq_lib::to_multiset_contains(m.entries, e);
            vstd::seq_lib::to_multiset_contains(first_of(self.added@), e);
            assert(first_of(self.added@).contains(e));
            let k = choose|k: int| 0 <= k < first_of(self.added@).len() && first_of(self.added@)[k] == e;
            assert(self.added@[k].0 == e);
            let c = self.added@[k].1;
            if !e.is_directory {
                lemma_extract_layout(hdr, stored, d, o, e, c);
            }
            assert(archive_extract(a, o, e) == Ok::<Seq<u8>, RzxError>(c));
            assert(0 <= k < self.added().len() && self.added()[k].0 == o.metadata.entries[i]
                && archive_extract(self.archive_with(stored), o, o.metadata.entries[i])
                == Ok::<Seq<u8>, RzxError>(self.added()[k].1));
        }
    }
}

impl RzxWriter {
    /// The metadata block of the archive: the encoding of the metadata,
    /// encrypted if the archive is.
    pub open spec fn stored_metadata(&self) -> Seq<u8> {
        encrypted_form(
            self.algorithm(),
            self.key_bytes(),
            self.nonce_bytes(),
            enc_metadata(self.metadata_view()),
        )
    }

    /// Archive `a` opens with `pw`, gives back this writer's metadata, and
    /// every entry of it extracts to the contents added for it.
    pub open spec fn reads_back(&self, a: Seq<u8>, pw: Option<Seq<u8>>) -> bool {
        archive_open(a, pw) matches Ok(o) && {
            &&& o.metadata == self.metadata_view()
            &&& forall|i: int|
                0 <= i < o.metadata.entries.len() ==> exists|k: int|
                    0 <= k < self.added().len() && self.added()[k].0 == o.metadata.entries[i]
                        && archive_extract(a, o, #[trigger] o.metadata.entries[i]) == Ok::<
                        Seq<u8>,
                        RzxError,
                    >(self.added()[k].1)
        }
    }

    /// Finishes the archive: sorts the entries (directories first, then by
    /// path), validates them, encodes the metadata, encrypts it if the
    /// archive is encrypted, and returns the bytes of the archive: the
    /// header, which records where the metadata block lies, its size and
    /// the CRC-32 of its plain encoding, then the metadata block, then the
    /// data section.
    #[verifier::spinoff_prover]
    #[verifier::rlimit(60)]
    pub fn finalize(&mut self) -> (res: RzxResult<Vec<u8>>)
        requires
            old(self).wf(),
        ensures
            final(self).wf(),
            final(self).data() == old(self).data(),
            final(self).added() == old(self).added(),
            final(self).algorithm() == old(self).algorithm(),
            final(self).password() == old(self).password(),
            final(self).key_bytes() == old(self).key_bytes(),
            final(self).nonce_bytes() == old(self).nonce_bytes(),
            final(self).salt_view() == old(self).salt_view(),
            final(self).nonce_view() == old(self).nonce_view(),
            entries_sorted(final(self).metadata_view().entries),
            final(self).metadata_view().entries.to_multiset() == old(self).metadata_view().entries.to_multiset(),
            forall|x: EntryModel| #[trigger] key_class(final(self).metadata_view().entries, x) == key_class(
                old(self).metadata_view().entries,
                x,
            ),
            final(self).metadata_view() == (MetadataModel {
                entries: final(self).metadata_view().entries,
                ..old(self).metadata_view()
            }),
            ({
                let m = final(self).metadata_view();
                match entries_check(m.entries) {
                    Err(c) => res matches Err(RzxError::CorruptedArchive(c2)) && c2 == c,
                    Ok(_) => if duplicate_index(m.entries) >= 0 {
                        res matches Err(RzxError::CorruptedArchive(Corruption::DuplicatePath(p)))
                            && p@ == m.entries[duplicate_index(m.entries)].path
                    } else if !metadata_encodable(m) {
                        res matches Err(e) && e == RzxError::Serialization(
                            FormatError::TimeBeforeEpoch,
                        )
                    } else if final(self).algorithm() != EncryptionAlgorithm::NoEncryption
                        && enc_metadata(m).len() > aes_gcm_max_plaintext() {
                        res matches Err(e) && e == RzxError::EncryptionError
                    } else {
                        res matches Ok(a) && a@ == final(self).archive_with(
                            final(self).stored_metadata(),
                        )
                    },
                }
            }),
            res is Ok ==> decrypted_form(
                final(self).algorithm(),
                final(self).key_bytes(),
                final(self).nonce_bytes(),
                final(self).stored_metadata(),
            ) == Some(enc_metadata(final(self).metadata_view())),
            res matches Ok(a) ==> (metadata_valid(final(self).metadata_view()) ==> final(self).reads_back(a@, Some(final(self).password()))),
            res matches Ok(a) ==> (metadata_valid(final(self).metadata_view()) && final(self).algorithm()
                == EncryptionAlgorithm::NoEncryption ==> final(self).reads_back(a@, None)),
    {
        broadcast use vstd::seq_lib::group_to_multiset_ensures;

        self.metadata.sort_entries();
        match self.metadata.validate() {
            Ok(()) => {},
            Err(e) => return Err(e),
        }
        let plain = match self.metadata.to_bytes() {
            Ok(b) => b,
            Err(e) => return Err(e),
        };
        let checksum = crc32_of(plain.as_slice());
        let key = match &self.encryption_key {
            Some(k) => *k,
            None => [0u8; 32],
        };
        let nonce = match &self.nonce {
            Some(n) => *n,
            None => [0u8; 12],
        };
        let stored = match encrypt(self.encryption_algorithm, &key, &nonce, plain.as_slice()) {
            Ok(v) => v,
            Err(e) => return Err(e),
        };
        let probe = RzxHeader::new(self.encryption_algorithm, self.salt, self.nonce, 0, 0, 0);
        proof {
            lemma_header_roundtrip(probe@, Seq::empty());
        }
        let probe_bytes = match probe.to_bytes() {
            Ok(b) => b,
            Err(e) => return Err(e),
        };
        let metadata_offset = probe_bytes.len() as u64;
        let header = RzxHeader::new(
            self.encryption_algorithm,
            self.salt,
            self.nonce,
            metadata_offset,
            stored.len() as u64,
            checksum,
        );
        let mut out = match header.to_bytes() {
            Ok(b) => b,
            Err(e) => return Err(e),
        };
        put_slice(&mut out, stored.as_slice());
        put_slice(&mut out, self.data.as_slice());
        proof {
            let ghost h = final_header(
                self.encryption_algorithm,
                opt_array_view(self.salt),
                opt_array_view(self.nonce),
                plain@,
                stored@.len(),
            );
            assert(header@ == h);
            assert(out@ =~= self.archive_with(stored@));
            if metadata_valid(self.metadata@) {
                self.lemma_read_back(Some(self.password@), stored@);
                if self.encryption_algorithm == EncryptionAlgorithm::NoEncryption {
                    self.lemma_read_back(None, stored@);
                }
            }
        }
        Ok(out)
    }
}

/// The header that a writer produces has the shape of a header, passes the
/// header checks, and places the metadata block right after the header.
#[verifier::spinoff_prover]
#[verifier::rlimit(40)]
proof fn lemma_final_header(
    alg: EncryptionAlgorithm,
    salt: Option<Seq<u8>>,
    nonce: Option<Seq<u8>>,
    plain: Seq<u8>,
    stored_len: nat,
)
    requires
        alg == EncryptionAlgorithm::NoEncryption ==> salt is None && nonce is None,
        alg != EncryptionAlgorithm::NoEncryption ==> salt is Some && nonce is Some,
        salt matches Some(s) ==> s.len() == 16,
        nonce matches Some(n) ==> n.len() == 12,
        stored_len <= u64::MAX,
    ensures
        ({
            let h = final_header(alg, salt, nonce, plain, stored_len);
            &&& header_shaped(h)
            &&& header_check(h) is Ok
            &&& h.metadata_offset == header_len(h)
            &&& h.metadata_size == stored_len
            &&& h.metadata_checksum == crc32(plain)
            &&& h.encryption_algorithm == alg
            &&& h.salt == salt
            &&& h.nonce == nonce
        }),
{
    assert(rzx_magic().len() == 4);
}

/// Opening an archive laid out as a header, a data section and a metadata
/// block that decrypts to the encoding of `m` gives back the header and `m`.
#[verifier::spinoff_prover]
#[verifier::rlimit(40)]
proof fn lemma_open_layout(
    h: HeaderModel,
    stored: Seq<u8>,
    d: Seq<u8>,
    m: MetadataModel,
    pw: Option<Seq<u8>>,
    key: Seq<u8>,
    nonce: Seq<u8>,
)
    requires
        header_shaped(h),
        header_check(h) is Ok,
        h.metadata_offset == header_len(h),
        h.metadata_size == stored.len(),
        h.metadata_checksum == crc32(enc_metadata(m)),
        h.encryption_algorithm != EncryptionAlgorithm::NoEncryption ==> {
            &&& pw is Some
            &&& key == pbkdf2_sha256(pw->0, h.salt->0, KDF_ROUNDS)
            &&& nonce == h.nonce->0
        },
        decrypted_form(h.encryption_algorithm, key, nonce, stored) == Some(enc_metadata(m)),
        metadata_bounded(m),
        metadata_valid(m),
    ensures
        archive_open(enc_header(h) + (stored + d), pw) == Ok::<Opened, RzxError>(
            Opened {
                header: h,
                metadata: m,
                key: if h.encryption_algorithm != EncryptionAlgorithm::NoEncryption {
                    key
                } else {
                    Seq::empty()
                },
            },
        ),
{
    let a = enc_header(h) + (stored + d);
    lemma_header_roundtrip(h, stored + d);
    let start = h.metadata_offset as int;
    assert(a.subrange(start, start + stored.len()) =~= stored);
    lemma_metadata_roundtrip(m, Seq::empty());
    assert(enc_metadata(m) + Seq::<u8>::empty() =~= enc_metadata(m));
}

/// A file entry whose data is stored in the data section of an archive
/// extracts to the contents it was stored from.
#[verifier::spinoff_prover]
#[verifier::rlimit(40)]
proof fn lemma_extract_layout(
    hdr: Seq<u8>,
    stored: Seq<u8>,
    d: Seq<u8>,
    o: Opened,
    e: EntryModel,
    c: Seq<u8>,
)
    requires
        data_start(o) == hdr.len() + stored.len(),
        !e.is_directory,
        stored_at(d, o.header.encryption_algorithm, o.key, opened_nonce(o), e, c),
    ensures
        archive_extract(hdr + (stored + d), o, e) == Ok::<Seq<u8>, RzxError>(c),
{
    let a = hdr + (stored + d);
    let start = data_start(o) + e.data_offset;
    assert(read_span(a, start, start + e.compressed_size) =~= d.subrange(
        e.data_offset as int,
        e.data_offset + e.compressed_size,
    ));
}

// ------------------------------------------------------------ creating archives

/// The compression algorithm named by `algorithm` (in any case); an unknown
/// name is refused.
pub fn selected_algorithm(algorithm: &str) -> (res: RzxResult<CompressionAlgorithm>)
    ensures
        match compression_from_lowercase(lowercase(algorithm@)) {
            Some(a) => res matches Ok(b) && b == a,
            None => res matches Err(e) && e == RzxError::UnsupportedCompression(0),
        },
{
    match CompressionAlgorithm::from_str(algorithm) {
        Some(a) => Ok(a),
        None => Err(RzxError::UnsupportedCompression(0)),
    }
}

/// The components of the directory that inputs are stored relative to: the
/// parent of the first input, or the root if it has none.
pub open spec fn base_components(first: Seq<u8>) -> Seq<(u8, Seq<u8>)> {
    match parent_components(first) {
        Some(c) => c,
        None => seq![(ROOT_DIR, Seq::<u8>::empty())],
    }
}

/// The directory that inputs are stored relative to: the parent of the
/// first input, or "/" if it has none.
pub fn base_path(first_input: &str) -> (res: String)
    ensures
        components(encode_utf8(res@)) == base_components(encode_utf8(first_input@)),
{
    match path_parent(first_input) {
        Some(p) => p,
        None => {
            proof {
                reveal_strlit("/");
                assert("/"@ =~= seq!['/']);
                lemma_root_path();
            }
            "/".to_owned()
        },
    }
}

/// The bytes of `p` relative to `base`, as `Path::strip_prefix` leaves them;
/// none when `p` is not under `base`.
pub open spec fn relative_path(p: Seq<u8>, base: Seq<u8>) -> Option<Seq<u8>> {
    if comps_prefix(components(base), components(p)) {
        Some(stripped(p, components(base).len()))
    } else {
        None
    }
}

/// Whether exclude pattern `p` excludes relative path `r`: as a glob that
/// matches the whole path (`*` for any run of characters, `/` included, and
/// `?` for any one character), or, for a pattern without wildcards, also by
/// occurring anywhere in the path.
pub open spec fn pattern_excludes(p: Seq<char>, r: Seq<char>) -> bool {
    glob_match(p, r) || (!has_wildcard(p) && contains_bytes(encode_utf8(r), encode_utf8(p)))
}

/// Whether one of the exclude patterns excludes a relative path.
pub open spec fn excluded(relative: Seq<char>, exclude: Seq<Seq<char>>) -> bool {
    exists|k: int| 0 <= k < exclude.len() && pattern_excludes(#[trigger] exclude[k], relative)
}

/// Whether one of the exclude patterns excludes `relative`.
pub fn is_excluded(relative: &str, exclude: &[String]) -> (res: bool)
    ensures
        res == excluded(relative@, strings_chars(exclude@)),
{
    let ghost ex = strings_chars(exclude@);
    let mut k: usize = 0;
    while k < exclude.len()
        invariant
            ex == strings_chars(exclude@),
            k <= exclude@.len(),
            forall|q: int| 0 <= q < k ==> !pattern_excludes(#[trigger] ex[q], relative@),
        decreases exclude@.len() - k,
    {
        let pat = exclude[k].as_str();
        assert(ex[k as int] == pat@);
        if glob_matches(pat, relative) || (!str_has_wildcard(pat) && str_contains(relative, pat)) {
            return true;
        }
        k = k + 1;
    }
    false
}

/// The candidates that go into the archive, in order: each is taken
/// relative to `base` and left out when an exclude pattern excludes its
/// relative path; none when a candidate is not under `base`.
pub open spec fn selected_files(base: Seq<u8>, candidates: Seq<Seq<u8>>, exclude: Seq<Seq<char>>) -> Option<
    Seq<Seq<u8>>,
>
    decreases candidates.len(),
{
    if candidates.len() == 0 {
        Some(Seq::empty())
    } else {
        match selected_files(base, candidates.drop_last(), exclude) {
            None => None,
            Some(sel) => match relative_path(candidates.last(), base) {
                None => None,
                Some(r) => if excluded(decode_utf8(r), exclude) {
                    Some(sel)
                } else {
                    Some(sel.push(candidates.last()))
                },
            },
        }
    }
}

/// What selection keeps: when every candidate is under `base`, exactly the
/// candidates whose relative path no pattern excludes, each of them; the
/// selection is none exactly when some candidate is not under `base`.
pub proof fn lemma_selected_meaning(base: Seq<u8>, candidates: Seq<Seq<u8>>, exclude: Seq<Seq<char>>)
    ensures
        selected_files(base, candidates, exclude) is None <==> exists|i: int|
            0 <= i < candidates.len() && #[trigger] relative_path(candidates[i], base) is None,
        selected_files(base, candidates, exclude) matches Some(sel) ==> {
            &&& forall|k: int|
                0 <= k < sel.len() ==> candidates.contains(#[trigger] sel[k]) && !excluded(
                    decode_utf8(relative_path(sel[k], base)->0),
                    exclude,
                )
            &&& forall|i: int|
                0 <= i < candidates.len() && !excluded(
                    decode_utf8(relative_path(#[trigger] candidates[i], base)->0),
                    exclude,
                ) ==> sel.contains(candidates[i])
        },
    decreases candidates.len(),
{
    if candidates.len() > 0 {
        let d = candidates.drop_last();
        let n = candidates.len() - 1;
        lemma_selected_meaning(base, d, exclude);
        assert(candidates.last() == candidates[n]);
        assert forall|i: int| 0 <= i < d.len() implies #[trigger] d[i] == candidates[i] by {}
        if selected_files(base, d, exclude) is None {
            let i = choose|i: int| 0 <= i < d.len() && #[trigger] relative_path(d[i], base) is None;
            assert(relative_path(candidates[i], base) is None);
        }
        if exists|i: int| 0 <= i < candidates.len() && #[trigger] relative_path(candidates[i], base) is None {
            let i = choose|i: int| 0 <= i < candidates.len() && #[trigger] relative_path(candidates[i], base) is None;
            if i < n {
                assert(relative_path(d[i], base) is None);
            }
        }
        if let Some(sel) = selected_files(base, candidates, exclude) {
            let sd = selected_files(base, d, exclude)->0;
            assert forall|k: int| 0 <= k < sel.len() implies candidates.contains(#[trigger] sel[k]) && !excluded(
                decode_utf8(relative_path(sel[k], base)->0),
                exclude,
            ) by {
                if k < sd.len() {
                    assert(sel[k] == sd[k]);
                    assert(d.contains(sd[k]));
                    let j = choose|j: int| 0 <= j < d.len() && d[j] == sd[k];
                    assert(candidates[j] == sd[k]);
                } else {
                    assert(sel[k] == candidates[n]);
                }
            }
            assert forall|i: int|
                0 <= i < candidates.len() && !excluded(
                    decode_utf8(relative_path(#[trigger] candidates[i], base)->0),
                    exclude,
                ) implies sel.contains(candidates[i]) by {
                if i < n {
                    assert(d[i] == candidates[i]);
                    assert(sd.contains(d[i]));
                    let k = choose|k: int| 0 <= k < sd.len() && sd[k] == d[i];
                    assert(sel[k] == sd[k]);
                } else {
                    assert(sel[sel.len() - 1] == candidates[n]);
                }
            }
        }
    }
}

/// The candidate paths (the inputs, and what walking each input directory
/// found) that go into the archive. A candidate that is not under `base`
/// is an I/O error.
pub fn files_to_process(base: &str, candidates: &[String], exclude: &[String]) -> (res: RzxResult<
    Vec<String>,
>)
    ensures
        match selected_files(encode_utf8(base@), strings_bytes(candidates@), strings_chars(exclude@)) {
            None => res matches Err(e) && e == RzxError::Io,
            Some(sel) => res matches Ok(v) && strings_bytes(v@) == sel,
        },
{
    let ghost b = encode_utf8(base@);
    let ghost cs = strings_bytes(candidates@);
    let ghost ex = strings_chars(exclude@);
    let mut out: Vec<String> = Vec::new();
    let mut i: usize = 0;
    assert(cs.take(0) =~= Seq::<Seq<u8>>::empty());
    assert(strings_bytes(out@) =~= Seq::<Seq<u8>>::empty());
    while i < candidates.len()
        invariant
            b == encode_utf8(base@),
            cs == strings_bytes(candidates@),
            ex == strings_chars(exclude@),
            i <= candidates@.len(),
            selected_files(b, cs.take(i as int), ex) == Some(strings_bytes(out@)),
        decreases candidates@.len() - i,
    {
        let path = candidates[i].as_str();
        proof {
            assert(cs.take(i + 1).drop_last() =~= cs.take(i as int));
            assert(cs.take(i + 1).last() == encode_utf8(path@));
        }
        match path_strip_prefix(path, base) {
            None => {
                proof {
                    lemma_selected_prefix(b, cs, ex, (i + 1) as int);
                }
                return Err(RzxError::Io);
            },
            Some(rel) => {
                proof {
                    vstd::utf8::encode_utf8_decode_utf8(rel@);
                }
                if !is_excluded(rel.as_str(), exclude) {
                    let ghost before = out@;
                    out.push(candidates[i].clone());
                    assert(strings_bytes(out@) =~= strings_bytes(before).push(encode_utf8(path@)));
                }
            },
        }
        i = i + 1;
    }
    assert(cs.take(candidates@.len() as int) =~= cs);
    Ok(out)
}

/// Once a prefix of the candidates has no selection, neither has any longer
/// one.
proof fn lemma_selected_prefix(b: Seq<u8>, cs: Seq<Seq<u8>>, ex: Seq<Seq<char>>, n: int)
    requires
        0 <= n <= cs.len(),
        selected_files(b, cs.take(n), ex) is None,
    ensures
        selected_files(b, cs, ex) is None,
    decreases cs.len() - n,
{
    if n < cs.len() {
        assert(cs.take(n + 1).drop_last() =~= cs.take(n));
        lemma_selected_prefix(b, cs, ex, n + 1);
    } else {
        assert(cs.take(n) =~= cs);
    }
}

/// The entry for an input at relative path `path` with the file system's
/// report of it: a directory or a file entry, with the reported kind, size
/// (none for a directory), permissions and times.
pub open spec fn entry_from_fs(path: Seq<char>, md: FsMetadata) -> EntryModel {
    let e = new_entry(path);
    EntryModel {
        is_directory: md.is_dir,
        permissions: md.mode,
        compression: if md.is_dir {
            CompressionAlgorithm::NoCompression
        } else {
            e.compression
        },
        original_size: if md.is_dir {
            0
        } else {
            md.len
        },
        created: md.created,
        modified: md.modified,
        accessed: md.accessed,
        ..e
    }
}

/// The entry prepared for an input records what the file system reported:
/// its kind, its mode as permissions, its times, its size for a file (none
/// for a directory), and the relative path it was given; a directory is
/// stored without compression.
pub proof fn lemma_entry_from_fs_reports(path: Seq<char>, md: FsMetadata)
    ensures
        entry_from_fs(path, md).path == path,
        entry_from_fs(path, md).is_directory == md.is_dir,
        entry_from_fs(path, md).permissions == md.mode,
        entry_from_fs(path, md).created == md.created,
        entry_from_fs(path, md).modified == md.modified,
        entry_from_fs(path, md).accessed == md.accessed,
        entry_from_fs(path, md).original_size == (if md.is_dir { 0 } else { md.len }),
        md.is_dir ==> entry_from_fs(path, md).compression == CompressionAlgorithm::NoCompression,
{
}

/// The entry for an input at `path` under `base`, from the file system's
/// report of it; none when `path` is not under `base`.
pub fn prepare_entry(path: &str, base: &str, metadata: &FsMetadata) -> (res: Option<FileEntry>)
    ensures
        match relative_path(encode_utf8(path@), encode_utf8(base@)) {
            None => res is None,
            Some(r) => res matches Some(e) && encode_utf8(e@.path) == r && e@ == entry_from_fs(
                e@.path,
                *metadata,
            ) && e@.permissions == metadata.mode && e@.is_directory == metadata.is_dir,
        },
{
    let rel = match path_strip_prefix(path, base) {
        Some(r) => r,
        None => return None,
    };
    let mut entry = if metadata.is_dir {
        FileEntry::new_directory(rel.as_str())
    } else {
        FileEntry::new(rel.as_str())
    };
    let _ = entry.set_metadata_from_fs(metadata);
    Some(entry)
}

/// An input to archive: its path, the file system's report of it (none
/// where it could not be read), and its contents (empty for a directory).
pub struct InputFile {
    pub path: String,
    pub metadata: Option<FsMetadata>,
    pub contents: Vec<u8>,
}

pub open spec fn inputs_view(v: Seq<InputFile>) -> Seq<(Seq<u8>, Option<FsMetadata>, Seq<u8>)> {
    v.map_values(|f: InputFile| (encode_utf8(f.path@), f.metadata, f.contents@))
}

/// The entries that the inputs give, in order, each with the contents to
/// store for it: inputs without a report, not under `base`, or whose path
/// relative to `base` an exclude pattern excludes, give none.
pub open spec fn prepared_inputs(
    base: Seq<u8>,
    inputs: Seq<(Seq<u8>, Option<FsMetadata>, Seq<u8>)>,
    exclude: Seq<Seq<char>>,
) -> Seq<(EntryModel, Seq<u8>)>
    decreases inputs.len(),
{
    if inputs.len() == 0 {
        Seq::empty()
    } else {
        let rest = prepared_inputs(base, inputs.drop_last(), exclude);
        let (path, md, contents) = inputs.last();
        match (md, relative_path(path, base)) {
            (Some(m), Some(r)) => if excluded(decode_utf8(r), exclude) {
                rest
            } else {
                rest.push(
                (
                    entry_from_fs(decode_utf8(r), m),
                    if m.is_dir {
                        Seq::empty()
                    } else {
                        contents
                    },
                ),
            )
            },
            _ => rest,
        }
    }
}

/// No prepared entry is to be compressed with DEFLATE.
pub open spec fn no_deflate(prepared: Seq<(EntryModel, Seq<u8>)>) -> bool {
    forall|k: int| 0 <= k < prepared.len() ==> #[trigger] prepared[k].0.compression != CompressionAlgorithm::Deflate
}

/// The entries that a prefix of the inputs gives begin those that all of
/// them give.
proof fn lemma_prepared_prefix(
    base: Seq<u8>,
    inputs: Seq<(Seq<u8>, Option<FsMetadata>, Seq<u8>)>,
    ex: Seq<Seq<char>>,
    n: int,
)
    requires
        0 <= n <= inputs.len(),
    ensures
        prepared_inputs(base, inputs.take(n), ex).len() <= prepared_inputs(base, inputs, ex).len(),
        prepared_inputs(base, inputs, ex).take(prepared_inputs(base, inputs.take(n), ex).len() as int)
            == prepared_inputs(base, inputs.take(n), ex),
    decreases inputs.len() - n,
{
    if n < inputs.len() {
        lemma_prepared_prefix(base, inputs, ex, n + 1);
        assert(inputs.take(n + 1).drop_last() =~= inputs.take(n));
        let p1 = prepared_inputs(base, inputs.take(n + 1), ex);
        let p0 = prepared_inputs(base, inputs.take(n), ex);
        let full = prepared_inputs(base, inputs, ex);
        assert(full.take(p0.len() as int) =~= full.take(p1.len() as int).take(p0.len() as int));
        assert(p1.take(p0.len() as int) =~= p0);
    } else {
        assert(inputs.take(n) =~= inputs);
        let full = prepared_inputs(base, inputs, ex);
        assert(full.take(full.len() as int) =~= full);
    }
}

/// The size of a prepared entry's stored data: none for a directory.
pub open spec fn stored_size(alg: EncryptionAlgorithm, p: (EntryModel, Seq<u8>), level: u8) -> nat {
    if p.0.is_directory {
        0
    } else {
        stored_len(alg, compressed_form(p.0.compression, p.1, level).len())
    }
}

/// The length of the data section that the prepared entries fill.
pub open spec fn data_size(alg: EncryptionAlgorithm, prepared: Seq<(EntryModel, Seq<u8>)>, level: u8) -> nat
    decreases prepared.len(),
{
    if prepared.len() == 0 {
        0
    } else {
        data_size(alg, prepared.drop_last(), level) + stored_size(alg, prepared.last(), level)
    }
}

/// The first error that adding the prepared entries in order meets, if any.
pub open spec fn write_error(alg: EncryptionAlgorithm, prepared: Seq<(EntryModel, Seq<u8>)>, level: u8) -> Option<
    RzxError,
>
    decreases prepared.len(),
{
    if prepared.len() == 0 {
        None
    } else {
        match write_error(alg, prepared.drop_last(), level) {
            Some(e) => Some(e),
            None => add_error(
                alg,
                data_size(alg, prepared.drop_last(), level),
                prepared.last().0,
                prepared.last().1,
                level,
            ),
        }
    }
}

/// The entry that the writer records for the `k`-th prepared entry: a
/// directory as it is; a file with the CRC-32 and size of its contents, its
/// data stored right after that of the entries before it.
pub open spec fn written_entry(
    alg: EncryptionAlgorithm,
    prepared: Seq<(EntryModel, Seq<u8>)>,
    level: u8,
    k: int,
) -> EntryModel {
    let (e, c) = prepared[k];
    if e.is_directory {
        e
    } else {
        recorded_entry(
            e,
            c,
            data_size(alg, prepared.take(k), level) as int,
            stored_size(alg, prepared[k], level) as int,
        )
    }
}

/// The entries that the writer records for the prepared ones, in order.
pub open spec fn written_entries(alg: EncryptionAlgorithm, prepared: Seq<(EntryModel, Seq<u8>)>, level: u8) -> Seq<
    EntryModel,
> {
    Seq::new(prepared.len(), |k: int| written_entry(alg, prepared, level, k))
}

/// The writer's entries were written, in order, from the prepared ones.
pub open spec fn written_from(
    added: Seq<(EntryModel, Seq<u8>)>,
    prepared: Seq<(EntryModel, Seq<u8>)>,
    alg: EncryptionAlgorithm,
    level: u8,
) -> bool {
    &&& added.len() == prepared.len()
    &&& forall|k: int|
        0 <= k < added.len() ==> #[trigger] added[k] == (written_entry(alg, prepared, level, k), prepared[k].1)
}

/// No time of any entry lies before the epoch.
pub open spec fn entries_encodable(es: Seq<EntryModel>) -> bool {
    forall|k: int| 0 <= k < es.len() ==> entry_encodable(#[trigger] es[k])
}

proof fn lemma_encodable_by_contents(es1: Seq<EntryModel>, es2: Seq<EntryModel>)
    requires
        es1.to_multiset() == es2.to_multiset(),
    ensures
        entries_encodable(es1) <==> entries_encodable(es2),
{
    broadcast use vstd::seq_lib::group_to_multiset_ensures;

    assert forall|a: Seq<EntryModel>, b: Seq<EntryModel>|
        a.to_multiset() == b.to_multiset() && entries_encodable(a) implies entries_encodable(b) by {
        assert forall|k: int| 0 <= k < b.len() implies entry_encodable(#[trigger] b[k]) by {
            assert(b.contains(b[k]));
            assert(a.to_multiset().count(b[k]) > 0);
            assert(a.contains(b[k]));
        }
    }
}

/// Once adding a prefix of the entries fails, adding them all fails the same way.
proof fn lemma_write_error_prefix(
    alg: EncryptionAlgorithm,
    prepared: Seq<(EntryModel, Seq<u8>)>,
    level: u8,
    n: int,
)
    requires
        0 <= n <= prepared.len(),
        write_error(alg, prepared.take(n), level) is Some,
    ensures
        write_error(alg, prepared, level) == write_error(alg, prepared.take(n), level),
    decreases prepared.len(),
{
    if prepared.len() > n {
        assert(prepared.drop_last().take(n) =~= prepared.take(n));
        lemma_write_error_prefix(alg, prepared.drop_last(), level, n);
    } else {
        assert(prepared.take(n) =~= prepared);
    }
}

impl RzxWriter {
    /// Archive `a` is what `finalize` returned in this state.
    pub open spec fn produced(&self, a: Seq<u8>) -> bool {
        &&& self.wf()
        &&& a == self.archive_with(self.stored_metadata())
        &&& entries_sorted(self.metadata_view().entries)
        &&& decrypted_form(self.algorithm(), self.key_bytes(), self.nonce_bytes(), self.stored_metadata())
            == Some(enc_metadata(self.metadata_view()))
        &&& metadata_valid(self.metadata_view()) ==> self.reads_back(a, Some(self.password()))
        &&& metadata_valid(self.metadata_view()) && self.algorithm() == EncryptionAlgorithm::NoEncryption
            ==> self.reads_back(a, None)
    }
}

/// The bytes of a password, the empty one where none is given.
pub open spec fn password_or_empty(password: Option<&str>) -> Seq<u8> {
    match password {
        Some(p) => encode_utf8(p@),
        None => Seq::empty(),
    }
}

/// The metadata of an archive created at time `now` with these entries:
/// this tool as creator, no comment and no custom fields, created and last
/// modified at `now`.
pub open spec fn created_metadata(entries: Seq<EntryModel>, now: Time) -> MetadataModel {
    MetadataModel {
        entries,
        comment: None,
        creator: "rzx-compressor v0.1.0"@,
        created_at: now,
        modified_at: now,
        custom_fields: Seq::empty(),
    }
}

/// The entries that creating an archive prepares from these arguments.
pub open spec fn prepared_for(base: &str, inputs: Seq<InputFile>, exclude: Seq<String>) -> Seq<
    (EntryModel, Seq<u8>),
> {
    prepared_inputs(encode_utf8(base@), inputs_view(inputs), strings_chars(exclude))
}

/// Archive `a` is what a writer produced that wrote exactly the prepared
/// entries and contents, encrypted with `alg` under the password, with the
/// metadata of an archive created at `now`.
pub open spec fn made_by_writer(
    a: Seq<u8>,
    p: Seq<(EntryModel, Seq<u8>)>,
    alg: EncryptionAlgorithm,
    level: u8,
    password: Option<&str>,
    now: Time,
) -> bool {
    exists|wr: RzxWriter|
        #[trigger] wr.produced(a) && written_from(wr.added(), p, alg, level) && wr.algorithm() == alg
            && wr.password() == password_or_empty(password) && wr.metadata_view() == created_metadata(
            wr.metadata_view().entries,
            now,
        ) && wr.metadata_view().entries.to_multiset() == written_entries(alg, p, level).to_multiset()
}

/// What creating an archive at time `now` from these arguments gives: with
/// an unknown algorithm name, that error; else the first error that adding
/// the prepared entries in order meets; else `CorruptedArchive` when an
/// entry fails its own check or two share a path; else
/// `Serialization(TimeBeforeEpoch)` when a time of an entry, or `now`, lies
/// before the epoch; else `EncryptionError` when the archive is encrypted
/// and its metadata block is longer than AES-GCM takes; else the archive,
/// which a writer produced from exactly the prepared entries and contents,
/// with the metadata of an archive created at `now`.
pub open spec fn archive_created_at(
    base: &str,
    inputs: Seq<InputFile>,
    exclude: Seq<String>,
    compression_level: u8,
    algorithm: &str,
    encryption_algorithm: EncryptionAlgorithm,
    password: Option<&str>,
    now: Time,
    res: RzxResult<Vec<u8>>,
) -> bool {
    let p = prepared_for(base, inputs, exclude);
    let w = written_entries(encryption_algorithm, p, compression_level);
    &&& compression_from_lowercase(lowercase(algorithm@)) is None ==> (res matches Err(e) && e
        == RzxError::UnsupportedCompression(0))
    &&& compression_from_lowercase(lowercase(algorithm@)) is Some ==> match write_error(
        encryption_algorithm,
        p,
        compression_level,
    ) {
        Some(e) => res matches Err(e2) && e2 == e,
        None => if some_entry_fails(w) || shares_path(w) {
            res matches Err(RzxError::CorruptedArchive(_))
        } else if !entries_encodable(w) || !time_encodable(now) {
            res matches Err(e) && e == RzxError::Serialization(FormatError::TimeBeforeEpoch)
        } else if encryption_algorithm != EncryptionAlgorithm::NoEncryption && enc_metadata(
            created_metadata(w, now),
        ).len() > aes_gcm_max_plaintext() {
            res matches Err(e) && e == RzxError::EncryptionError
        } else {
            res is Ok
        },
    }
    &&& res matches Ok(a) ==> made_by_writer(a@, p, encryption_algorithm, compression_level, password, now)
}

/// Creates an archive at time `now`: checks the algorithm name, prepares an
/// entry for each input under `base` that the file system reported and no
/// exclude pattern excludes, adds them in order (files compressed at
/// `compression_level` with the algorithm their type suits, and encrypted if
/// the archive is), and finishes the archive. What comes out is stated by
/// `archive_created_at`. DEFLATE takes levels up to 10 only, so a higher
/// level needs inputs without DEFLATE entries.
pub fn create_archive_at(
    base: &str,
    inputs: Vec<InputFile>,
    exclude: &[String],
    compression_level: u8,
    algorithm: &str,
    encryption_algorithm: EncryptionAlgorithm,
    password: Option<&str>,
    now: Time,
) -> (res: RzxResult<Vec<u8>>)
    requires
        compression_level <= 10 || no_deflate(prepared_for(base, inputs@, exclude@))
            || compression_from_lowercase(lowercase(algorithm@)) is None,
    ensures
        archive_created_at(
            base,
            inputs@,
            exclude@,
            compression_level,
            algorithm,
            encryption_algorithm,
            password,
            now,
            res,
        ),
{
    match selected_algorithm(algorithm) {
        Ok(_) => {},
        Err(e) => return Err(e),
    }
    let mut writer = match RzxWriter::new_at(encryption_algorithm, password, now) {
        Ok(w) => w,
        Err(e) => return Err(e),
    };
    let ghost b = encode_utf8(base@);
    let ghost iv = inputs_view(inputs@);
    let ghost ex = strings_chars(exclude@);
    let ghost p = prepared_inputs(b, iv, ex);
    let ghost alg = encryption_algorithm;
    let ghost level = compression_level;
    let mut i: usize = 0;
    assert(iv.take(0) =~= Seq::<(Seq<u8>, Option<FsMetadata>, Seq<u8>)>::empty());
    assert(p.take(0) =~= Seq::<(EntryModel, Seq<u8>)>::empty());
    assert(writer.metadata_view().entries =~= Seq::<EntryModel>::empty());
    assert(writer.metadata_view().custom_fields =~= Seq::<(Seq<char>, Seq<char>)>::empty());
    while i < inputs.len()
        invariant
            b == encode_utf8(base@),
            iv == inputs_view(inputs@),
            ex == strings_chars(exclude@),
            p == prepared_inputs(b, iv, ex),
            alg == encryption_algorithm,
            level == compression_level,
            i <= inputs@.len(),
            compression_level <= 10 || no_deflate(p),
            compression_from_lowercase(lowercase(algorithm@)) is Some,
            writer.wf(),
            writer.algorithm() == encryption_algorithm,
            writer.password() == password_or_empty(password),
            writer.metadata_view() == created_metadata(writer.metadata_view().entries, now),
            writer.added().len() <= p.len(),
            prepared_inputs(b, iv.take(i as int), ex) == p.take(writer.added().len() as int),
            forall|k: int|
                0 <= k < writer.added().len() ==> #[trigger] writer.added()[k] == (
                    written_entry(alg, p, level, k),
                    p[k].1,
                ),
            writer.data().len() == data_size(alg, p.take(writer.added().len() as int), level),
            write_error(alg, p.take(writer.added().len() as int), level) is None,
        decreases inputs@.len() - i,
    {
        let input = &inputs[i];
        let ghost before = writer.added();
        let ghost n = before.len() as int;
        let ghost old_data = writer.data();
        let ghost old_len = writer.data().len();
        proof {
            assert(iv.take(i + 1).drop_last() =~= iv.take(i as int));
            assert(iv.take(i + 1).last() == iv[i as int]);
            assert(iv[i as int] == (encode_utf8(input.path@), input.metadata, input.contents@));
            lemma_prepared_prefix(b, iv, ex, (i + 1) as int);
        }
        match &input.metadata {
            None => {},
            Some(md) => match prepare_entry(input.path.as_str(), base, md) {
                None => {},
                Some(entry) => {
                    let ghost ev = entry@;
                    proof {
                        vstd::utf8::encode_utf8_decode_utf8(ev.path);
                    }
                    if !is_excluded(entry.path.as_str(), exclude) {
                        let ghost c = if md.is_dir { Seq::<u8>::empty() } else { input.contents@ };
                        proof {
                            let prep = prepared_inputs(b, iv.take(i + 1), ex);
                            assert(prep == p.take(n).push((ev, c)));
                            assert(prep.len() == n + 1);
                            assert(p.take(n + 1) == prep);
                            assert(p[n] == prep[n]);
                            assert(p[n] == (ev, c));
                            assert(p.take(n + 1).drop_last() =~= p.take(n));
                            assert(p.take(n + 1).last() == p[n]);
                        }
                        match writer.add_entry_sequential_at(
                            entry,
                            input.contents.as_slice(),
                            compression_level,
                            now,
                        ) {
                            Ok(()) => {},
                            Err(e) => {
                                proof {
                                    assert(write_error(alg, p.take(n + 1), level) == Some(e));
                                    lemma_write_error_prefix(alg, p, level, n + 1);
                                }
                                return Err(e);
                            },
                        }
                        proof {
                            if !ev.is_directory {
                                assert(c == input.contents@);
                            } else {
                                assert(writer.data() =~= old_data);
                            }
                            assert(p.take(n + 1).drop_last() =~= p.take(n));
                            assert(writer.data().len() == old_len + stored_size(alg, p[n], level));
                            assert(writer.added()[n] == (written_entry(alg, p, level, n), p[n].1));
                            assert forall|k: int| 0 <= k < writer.added().len() implies #[trigger] writer.added()[k]
                                == (written_entry(alg, p, level, k), p[k].1) by {
                                if k < n {
                                    assert(writer.added()[k] == before[k]);
                                }
                            }
                        }
                    }
                },
            },
        }
        i = i + 1;
    }
    proof {
        assert(iv.take(inputs@.len() as int) =~= iv);
        assert(p.take(writer.added().len() as int) =~= p);
    }
    let ghost added = writer.added();
    let ghost went = written_entries(alg, p, level);
    let ghost old_entries = writer.metadata_view().entries;
    proof {
        assert(first_of(added) =~= went);
        assert(old_entries.to_multiset() == went.to_multiset());
        assert(written_from(added, p, alg, level));
    }
    let res = writer.finalize();
    proof {
        let m = writer.metadata_view();
        assert(writer.added() == added);
        assert(m.entries.to_multiset() == went.to_multiset());
        assert(m == created_metadata(m.entries, now));
        lemma_check_by_contents(m.entries, went);
        lemma_encodable_by_contents(m.entries, went);
        lemma_entry_list_len_by_contents(m.entries, went);
        assert(enc_metadata(m).len() == enc_metadata(created_metadata(went, now)).len());
        assert(metadata_encodable(m) <==> entries_encodable(m.entries) && time_encodable(now));
    }
    match res {
        Ok(a) => {
            assert(writer.produced(a@));
            Ok(a)
        },
        Err(e) => Err(e),
    }
}

/// What creating an archive now from these arguments gives: what creating
/// it at some time gives, the clock's reading.
pub open spec fn archive_created(
    base: &str,
    inputs: Seq<InputFile>,
    exclude: Seq<String>,
    compression_level: u8,
    algorithm: &str,
    encryption_algorithm: EncryptionAlgorithm,
    password: Option<&str>,
    res: RzxResult<Vec<u8>>,
) -> bool {
    exists|now: Time|
        (now matches Time::SinceEpoch(ts) ==> ts.nanos < 1_000_000_000) && #[trigger] archive_created_at(
            base,
            inputs,
            exclude,
            compression_level,
            algorithm,
            encryption_algorithm,
            password,
            now,
            res,
        )
}

/// Creates an archive as `create_archive_at` does, created now: at the
/// clock's reading.
pub fn create_archive(
    base: &str,
    inputs: Vec<InputFile>,
    exclude: &[String],
    compression_level: u8,
    algorithm: &str,
    encryption_algorithm: EncryptionAlgorithm,
    password: Option<&str>,
) -> (res: RzxResult<Vec<u8>>)
    requires
        compression_level <= 10 || no_deflate(prepared_for(base, inputs@, exclude@))
            || compression_from_lowercase(lowercase(algorithm@)) is None,
    ensures
        archive_created(
            base,
            inputs@,
            exclude@,
            compression_level,
            algorithm,
            encryption_algorithm,
            password,
            res,
        ),
{
    let now = current_time();
    create_archive_at(
        base,
        inputs,
        exclude,
        compression_level,
        algorithm,
        encryption_algorithm,
        password,
        now,
    )
}

/// Whether DEFLATE can take the level for every entry that the inputs give:
/// the level is at most 10, or no prepared entry is to be compressed with
/// DEFLATE.
pub fn level_suits_inputs(base: &str, inputs: &Vec<InputFile>, exclude: &[String], compression_level: u8) -> (res:
    bool)
    ensures
        res == (compression_level <= 10 || no_deflate(prepared_for(base, inputs@, exclude@))),
{
    if compression_level <= 10 {
        return true;
    }
    let ghost b = encode_utf8(base@);
    let ghost iv = inputs_view(inputs@);
    let ghost ex = strings_chars(exclude@);
    let mut i: usize = 0;
    assert(iv.take(0) =~= Seq::<(Seq<u8>, Option<FsMetadata>, Seq<u8>)>::empty());
    while i < inputs.len()
        invariant
            b == encode_utf8(base@),
            iv == inputs_view(inputs@),
            ex == strings_chars(exclude@),
            i <= inputs@.len(),
            compression_level > 10,
            no_deflate(prepared_inputs(b, iv.take(i as int), ex)),
        decreases inputs@.len() - i,
    {
        let input = &inputs[i];
        proof {
            assert(iv.take(i + 1).drop_last() =~= iv.take(i as int));
            assert(iv.take(i + 1).last() == iv[i as int]);
            assert(iv[i as int] == (encode_utf8(input.path@), input.metadata, input.contents@));
            lemma_prepared_prefix(b, iv, ex, (i + 1) as int);
        }
        match &input.metadata {
            None => {},
            Some(md) => match prepare_entry(input.path.as_str(), base, md) {
                None => {},
                Some(entry) => {
                    proof {
                        vstd::utf8::encode_utf8_decode_utf8(entry@.path);
                    }
                    if !is_excluded(entry.path.as_str(), exclude) {
                        let ghost prep = prepared_inputs(b, iv.take(i + 1), ex);
                        let ghost before = prepared_inputs(b, iv.take(i as int), ex);
                        assert(prep.last().0 == entry@);
                        assert(prep == before.push(prep.last()));
                        match entry.compression {
                            CompressionAlgorithm::Deflate => {
                                proof {
                                    let full = prepared_inputs(b, iv, ex);
                                    assert(full[prep.len() - 1] == prep[prep.len() - 1]);
                                    assert(full[prep.len() - 1].0.compression == CompressionAlgorithm::Deflate);
                                }
                                return false;
                            },
                            _ => {
                                assert forall|k: int| 0 <= k < prep.len() implies #[trigger] prep[k].0.compression
                                    != CompressionAlgorithm::Deflate by {
                                    if k < before.len() {
                                        assert(prep[k] == before[k]);
                                    }
                                }
                            },
                        }
                    }
                },
            },
        }
        i = i + 1;
    }
    assert(iv.take(inputs@.len() as int) =~= iv);
    true
}

/// Creates an archive as `create_archive` does, where DEFLATE can take the
/// level; `None`, with nothing done, where a DEFLATE entry would get a level
/// above 10 under a known algorithm name.
pub fn create_archive_checked(
    base: &str,
    inputs: Vec<InputFile>,
    exclude: &[String],
    compression_level: u8,
    algorithm: &str,
    encryption_algorithm: EncryptionAlgorithm,
    password: Option<&str>,
) -> (res: Option<RzxResult<Vec<u8>>>)
    ensures
        res is None <==> !(compression_level <= 10 || no_deflate(prepared_for(base, inputs@, exclude@)))
            && compression_from_lowercase(lowercase(algorithm@)) is Some,
        res matches Some(r) ==> archive_created(
            base,
            inputs@,
            exclude@,
            compression_level,
            algorithm,
            encryption_algorithm,
            password,
            r,
        ),
{
    if !level_suits_inputs(base, &inputs, exclude, compression_level) {
        match selected_algorithm(algorithm) {
            Ok(_) => return None,
            Err(_) => {},
        }
    }
    Some(
        create_archive(
            base,
            inputs,
            exclude,
            compression_level,
            algorithm,
            encryption_algorithm,
            password,
        ),
    )
}

// ------------------------------------------------------------ reading archives

/// The contents of each entry in turn; the first that fails to extract
/// gives the error.
pub open spec fn extract_all(a: Seq<u8>, o: Opened, es: Seq<EntryModel>) -> Result<Seq<Seq<u8>>, RzxError>
    decreases es.len(),
{
    if es.len() == 0 {
        Ok(Seq::empty())
    } else {
        match extract_all(a, o, es.drop_last()) {
            Err(e) => Err(e),
            Ok(cs) => match archive_extract(a, o, es.last()) {
                Err(e) => Err(e),
                Ok(c) => Ok(cs.push(c)),
            },
        }
    }
}

proof fn lemma_extract_all_prefix(a: Seq<u8>, o: Opened, es: Seq<EntryModel>, n: int)
    requires
        0 <= n <= es.len(),
        extract_all(a, o, es.take(n)) is Err,
    ensures
        extract_all(a, o, es) == extract_all(a, o, es.take(n)),
    decreases es.len() - n,
{
    if n < es.len() {
        assert(es.take(n + 1).drop_last() =~= es.take(n));
        lemma_extract_all_prefix(a, o, es, n + 1);
    } else {
        assert(es.take(n) =~= es);
    }
}

proof fn lemma_extract_all_ok(a: Seq<u8>, o: Opened, es: Seq<EntryModel>)
    requires
        forall|i: int| 0 <= i < es.len() ==> #[trigger] archive_extract(a, o, es[i]) is Ok,
    ensures
        extract_all(a, o, es) matches Ok(cs) && {
            &&& cs.len() == es.len()
            &&& forall|i: int|
                0 <= i < es.len() ==> archive_extract(a, o, es[i]) == Ok::<Seq<u8>, RzxError>(#[trigger] cs[i])
        },
    decreases es.len(),
{
    if es.len() > 0 {
        let d = es.drop_last();
        assert forall|i: int| 0 <= i < d.len() implies #[trigger] archive_extract(a, o, d[i]) is Ok by {
            assert(d[i] == es[i]);
        }
        lemma_extract_all_ok(a, o, d);
        assert(archive_extract(a, o, es[es.len() - 1]) is Ok);
        let cs = extract_all(a, o, es)->Ok_0;
        let cd = extract_all(a, o, d)->Ok_0;
        assert forall|i: int| 0 <= i < es.len() implies archive_extract(a, o, es[i]) == Ok::<
            Seq<u8>,
            RzxError,
        >(#[trigger] cs[i]) by {
            if i < d.len() {
                assert(d[i] == es[i]);
                assert(cs[i] == cd[i]);
            }
        }
    }
}

/// Archive `a` opens with `pw`, gives back metadata `m`, and extracting all
/// its entries in turn succeeds, each giving contents added for it.
pub open spec fn reads_all(
    a: Seq<u8>,
    pw: Option<Seq<u8>>,
    m: MetadataModel,
    added: Seq<(EntryModel, Seq<u8>)>,
) -> bool {
    archive_open(a, pw) matches Ok(o) && {
        &&& o.metadata == m
        &&& extract_all(a, o, o.metadata.entries) matches Ok(cs) && {
            &&& cs.len() == o.metadata.entries.len()
            &&& forall|i: int|
                0 <= i < cs.len() ==> added_with(added, o.metadata.entries[i], #[trigger] cs[i])
        }
    }
}

/// Entry `e` was added with contents `c`.
pub open spec fn added_with(added: Seq<(EntryModel, Seq<u8>)>, e: EntryModel, c: Seq<u8>) -> bool {
    exists|k: int| 0 <= k < added.len() && #[trigger] added[k] == (e, c)
}

/// Everything a writer produced extracts: when its metadata can be encoded
/// and come back unchanged, the archive opens with the writer's password
/// (or with none, when it is not encrypted), gives back the writer's
/// metadata, and extracting all its entries in turn succeeds, each giving
/// the contents that were added for it.
pub proof fn lemma_produced_extracts_all(w: RzxWriter, a: Seq<u8>, pw: Option<Seq<u8>>)
    requires
        w.produced(a),
        metadata_valid(w.metadata_view()),
        pw == Some(w.password()) || (pw is None && w.algorithm() == EncryptionAlgorithm::NoEncryption),
    ensures
        reads_all(a, pw, w.metadata_view(), w.added()),
{
    assert(w.reads_back(a, pw));
    let o = archive_open(a, pw)->Ok_0;
    let es = o.metadata.entries;
    assert forall|i: int| 0 <= i < es.len() implies #[trigger] archive_extract(a, o, es[i]) is Ok by {
        let k = choose|k: int|
            0 <= k < w.added().len() && w.added()[k].0 == es[i] && archive_extract(a, o, es[i]) == Ok::<
                Seq<u8>,
                RzxError,
            >(w.added()[k].1);
    }
    lemma_extract_all_ok(a, o, es);
    let cs = extract_all(a, o, es)->Ok_0;
    assert forall|i: int| 0 <= i < cs.len() implies added_with(w.added(), es[i], #[trigger] cs[i]) by {
        let k = choose|k: int|
            0 <= k < w.added().len() && w.added()[k].0 == es[i] && archive_extract(a, o, es[i]) == Ok::<
                Seq<u8>,
                RzxError,
            >(w.added()[k].1);
        assert(archive_extract(a, o, es[i]) == Ok::<Seq<u8>, RzxError>(cs[i]));
        assert(w.added()[k] == (es[i], cs[i]));
    }
}

/// No prepared entry has a path that an exclude pattern excludes.
pub proof fn lemma_prepared_not_excluded(
    base: Seq<u8>,
    inputs: Seq<(Seq<u8>, Option<FsMetadata>, Seq<u8>)>,
    exclude: Seq<Seq<char>>,
)
    ensures
        forall|k: int|
            0 <= k < prepared_inputs(base, inputs, exclude).len() ==> !excluded(
                #[trigger] prepared_inputs(base, inputs, exclude)[k].0.path,
                exclude,
            ),
    decreases inputs.len(),
{
    if inputs.len() > 0 {
        lemma_prepared_not_excluded(base, inputs.drop_last(), exclude);
        let rest = prepared_inputs(base, inputs.drop_last(), exclude);
        let all = prepared_inputs(base, inputs, exclude);
        assert forall|k: int| 0 <= k < all.len() implies !excluded(#[trigger] all[k].0.path, exclude) by {
            if k < rest.len() {
                assert(all[k] == rest[k]);
            }
        }
    }
}

/// The metadata of a writer that wrote the prepared entries, stamped at a
/// time that can be encoded, can be encoded and come back unchanged when
/// the entries' times can; and no entry has an excluded path when no
/// prepared entry has.
proof fn lemma_written_valid(
    wr: RzxWriter,
    p: Seq<(EntryModel, Seq<u8>)>,
    ex: Seq<Seq<char>>,
    alg: EncryptionAlgorithm,
    level: u8,
    now: Time,
)
    requires
        written_from(wr.added(), p, alg, level),
        wr.metadata_view() == created_metadata(wr.metadata_view().entries, now),
        wr.metadata_view().entries.to_multiset() == written_entries(alg, p, level).to_multiset(),
        time_wf(now),
        forall|k: int| 0 <= k < p.len() ==> entry_valid(#[trigger] p[k].0),
        forall|k: int| 0 <= k < p.len() ==> !excluded(#[trigger] p[k].0.path, ex),
    ensures
        metadata_valid(wr.metadata_view()),
        forall|i: int|
            0 <= i < wr.metadata_view().entries.len() ==> !excluded(
                #[trigger] wr.metadata_view().entries[i].path,
                ex,
            ),
{
    broadcast use vstd::seq_lib::group_to_multiset_ensures;

    let m = wr.metadata_view();
    let w = written_entries(alg, p, level);
    assert forall|i: int| 0 <= i < m.entries.len() implies entry_valid(#[trigger] m.entries[i]) && !excluded(
        m.entries[i].path,
        ex,
    ) by {
        assert(m.entries.contains(m.entries[i]));
        assert(w.to_multiset().count(m.entries[i]) > 0);
        assert(w.contains(m.entries[i]));
        let k = choose|k: int| 0 <= k < w.len() && w[k] == m.entries[i];
        assert(w[k] == written_entry(alg, p, level, k));
        assert(entry_valid(p[k].0));
        assert(!excluded(p[k].0.path, ex));
    }
}

/// What a writer made from prepared entries, with encodable times, extracts
/// to the prepared contents.
proof fn lemma_made_extracts(
    a: Seq<u8>,
    p: Seq<(EntryModel, Seq<u8>)>,
    ex: Seq<Seq<char>>,
    alg: EncryptionAlgorithm,
    level: u8,
    password: Option<&str>,
    now: Time,
)
    requires
        made_by_writer(a, p, alg, level, password, now),
        time_wf(now),
        forall|k: int| 0 <= k < p.len() ==> entry_valid(#[trigger] p[k].0),
        forall|k: int| 0 <= k < p.len() ==> !excluded(#[trigger] p[k].0.path, ex),
        password is Some || alg == EncryptionAlgorithm::NoEncryption,
    ensures
        created_extracts(a, p, ex, alg, level, password, now),
{
    let wr = choose|wr: RzxWriter|
        #[trigger] wr.produced(a) && written_from(wr.added(), p, alg, level) && wr.algorithm() == alg
            && wr.password() == password_or_empty(password) && wr.metadata_view() == created_metadata(
            wr.metadata_view().entries,
            now,
        ) && wr.metadata_view().entries.to_multiset() == written_entries(alg, p, level).to_multiset();
    lemma_written_valid(wr, p, ex, alg, level, now);
    lemma_produced_extracts_all(wr, a, password_bytes(password));
    lemma_writer_extracts(wr.metadata_view(), wr.added(), a, p, ex, alg, level, password, now);
}

proof fn lemma_writer_extracts(
    m: MetadataModel,
    added: Seq<(EntryModel, Seq<u8>)>,
    a: Seq<u8>,
    p: Seq<(EntryModel, Seq<u8>)>,
    ex: Seq<Seq<char>>,
    alg: EncryptionAlgorithm,
    level: u8,
    password: Option<&str>,
    now: Time,
)
    requires
        reads_all(a, password_bytes(password), m, added),
        written_from(added, p, alg, level),
        m == created_metadata(m.entries, now),
        m.entries.to_multiset() == written_entries(alg, p, level).to_multiset(),
        forall|i: int| 0 <= i < m.entries.len() ==> !excluded(#[trigger] m.entries[i].path, ex),
    ensures
        created_extracts(a, p, ex, alg, level, password, now),
{
    let w = written_entries(alg, p, level);
    let o = archive_open(a, password_bytes(password))->Ok_0;
    let cs = extract_all(a, o, o.metadata.entries)->Ok_0;
    assert forall|i: int| 0 <= i < cs.len() implies prepared_with(p, w, o.metadata.entries[i], #[trigger] cs[i]) by {
        let k = choose|k: int| 0 <= k < added.len() && #[trigger] added[k] == (o.metadata.entries[i], cs[i]);
        assert(added[k] == (written_entry(alg, p, level, k), p[k].1));
        assert(w[k] == written_entry(alg, p, level, k));
    }
}

/// Archive `a` opens with the password (with none where none was given and
/// the archive is not encrypted), holds exactly the entries written from
/// the prepared ones, none with a path that an exclude pattern excludes,
/// with the metadata of an archive created at `now`; and extracting all its
/// entries gives each the contents prepared for it.
pub open spec fn created_extracts(
    a: Seq<u8>,
    p: Seq<(EntryModel, Seq<u8>)>,
    ex: Seq<Seq<char>>,
    alg: EncryptionAlgorithm,
    level: u8,
    password: Option<&str>,
    now: Time,
) -> bool {
    let w = written_entries(alg, p, level);
    archive_open(a, password_bytes(password)) matches Ok(o) && {
        &&& o.metadata == created_metadata(o.metadata.entries, now)
        &&& o.metadata.entries.to_multiset() == w.to_multiset()
        &&& forall|i: int|
            0 <= i < o.metadata.entries.len() ==> !excluded(#[trigger] o.metadata.entries[i].path, ex)
        &&& extract_all(a, o, o.metadata.entries) matches Ok(cs) && {
            &&& cs.len() == o.metadata.entries.len()
            &&& forall|i: int|
                0 <= i < cs.len() ==> prepared_with(p, w, o.metadata.entries[i], #[trigger] cs[i])
        }
    }
}

/// Entry `e` was written, as `w` records them, from a prepared entry whose
/// contents are `c`.
pub open spec fn prepared_with(p: Seq<(EntryModel, Seq<u8>)>, w: Seq<EntryModel>, e: EntryModel, c: Seq<u8>) -> bool {
    exists|k: int| 0 <= k < p.len() && #[trigger] w[k] == e && p[k].1 == c
}

/// An archive created from inputs and exclude patterns extracts to what was
/// put in: when the times of the prepared entries and the creation time can
/// be encoded and come back unchanged, the archive opens with the password
/// (with none where none was given and the archive is not encrypted), holds
/// exactly the written entries, none with a path that an exclude pattern
/// excludes, with the metadata of an archive created at `now`; and
/// extracting all its entries gives each the contents of its input.
pub proof fn lemma_created_archive_extracts(
    base: &str,
    inputs: Seq<InputFile>,
    exclude: Seq<String>,
    compression_level: u8,
    algorithm: &str,
    encryption_algorithm: EncryptionAlgorithm,
    password: Option<&str>,
    now: Time,
    a: Vec<u8>,
)
    requires
        archive_created_at(
            base,
            inputs,
            exclude,
            compression_level,
            algorithm,
            encryption_algorithm,
            password,
            now,
            Ok(a),
        ),
        time_wf(now),
        forall|k: int|
            0 <= k < prepared_for(base, inputs, exclude).len() ==> entry_valid(
                #[trigger] prepared_for(base, inputs, exclude)[k].0,
            ),
        password is Some || encryption_algorithm == EncryptionAlgorithm::NoEncryption,
    ensures
        created_extracts(
            a@,
            prepared_for(base, inputs, exclude),
            strings_chars(exclude),
            encryption_algorithm,
            compression_level,
            password,
            now,
        ),
{
    let p = prepared_for(base, inputs, exclude);
    let ex = strings_chars(exclude);
    lemma_prepared_not_excluded(encode_utf8(base@), inputs_view(inputs), ex);
    assert(made_by_writer(a@, p, encryption_algorithm, compression_level, password, now));
    lemma_made_extracts(a@, p, ex, encryption_algorithm, compression_level, password, now);
}

/// Opens an archive and extracts every entry: the metadata, and the
/// contents of each entry in the order of the metadata (empty for a
/// directory). Writing them out is the caller's.
pub fn extract_archive(archive: Vec<u8>, password: Option<&str>) -> (res: RzxResult<
    (ArchiveMetadata, Vec<Vec<u8>>),
>)
    ensures
        match archive_open(archive@, password_bytes(password)) {
            Err(e) => res matches Err(e2) && e2 == e,
            Ok(o) => match extract_all(archive@, o, o.metadata.entries) {
                Err(e) => res matches Err(e2) && e2 == e,
                Ok(cs) => res matches Ok((m, v)) && m@ == o.metadata && v@.len() == cs.len() && forall|
                    i: int,
                | 0 <= i < cs.len() ==> #[trigger] v@[i]@ == cs[i],
            },
        },
{
    let ghost a = archive@;
    let reader = match RzxReader::new(archive, password) {
        Ok(r) => r,
        Err(e) => return Err(e),
    };
    let ghost o = reader.opened();
    let ghost es = o.metadata.entries;
    let mut out: Vec<Vec<u8>> = Vec::new();
    let mut i: usize = 0;
    let n = reader.metadata().entries.len();
    assert(es.take(0) =~= Seq::<EntryModel>::empty());
    while i < n
        invariant
            a == reader.archive(),
            a == archive@,
            o == reader.opened(),
            archive_open(a, password_bytes(password)) == Ok::<Opened, RzxError>(o),
            es == o.metadata.entries,
            n == es.len(),
            i <= n,
            extract_all(a, o, es.take(i as int)) matches Ok(cs) && out@.len() == cs.len() && forall|
                k: int,
            | 0 <= k < cs.len() ==> #[trigger] out@[k]@ == cs[k],
        decreases n - i,
    {
        let entry = &reader.metadata().entries[i];
        assert(entry@ == es[i as int]);
        proof {
            assert(es.take(i + 1).drop_last() =~= es.take(i as int));
            assert(es.take(i + 1).last() == es[i as int]);
        }
        let data = match reader.extract_file(entry) {
            Ok(d) => d,
            Err(e) => {
                proof {
                    assert(archive_extract(a, o, es[i as int]) == Err::<Seq<u8>, RzxError>(e));
                    assert(extract_all(a, o, es.take(i + 1)) == Err::<Seq<Seq<u8>>, RzxError>(e));
                    lemma_extract_all_prefix(a, o, es, (i + 1) as int);
                }
                return Err(e);
            },
        };
        let ghost before = out@;
        out.push(data);
        proof {
            let cs = extract_all(a, o, es.take(i + 1))->Ok_0;
            assert forall|k: int| 0 <= k < cs.len() implies #[trigger] out@[k]@ == cs[k] by {
                if k < before.len() {
                    assert(out@[k] == before[k]);
                }
            }
        }
        i = i + 1;
    }
    assert(es.take(n as int) =~= es);
    Ok((reader.into_metadata(), out))
}

/// Opens an archive for listing: its metadata.
pub fn list_archive(archive: Vec<u8>, password: Option<&str>) -> (res: RzxResult<ArchiveMetadata>)
    ensures
        match archive_open(archive@, password_bytes(password)) {
            Err(e) => res matches Err(e2) && e2 == e,
            Ok(o) => res matches Ok(m) && m@ == o.metadata,
        },
{
    match RzxReader::new(archive, password) {
        Ok(r) => Ok(r.into_metadata()),
        Err(e) => Err(e),
    }
}

/// Tests an archive's integrity: that it opens (its header checks out, its
/// metadata decrypts, matches its checksum and decodes) and that every entry
/// extracts (its data decrypts, decompresses and matches its checksum).
pub fn test_archive(archive: Vec<u8>, password: Option<&str>) -> (res: RzxResult<()>)
    ensures
        match archive_open(archive@, password_bytes(password)) {
            Err(e) => res matches Err(e2) && e2 == e,
            Ok(o) => match extract_all(archive@, o, o.metadata.entries) {
                Err(e) => res matches Err(e2) && e2 == e,
                Ok(_) => res is Ok,
            },
        },
{
    match extract_archive(archive, password) {
        Ok(_) => Ok(()),
        Err(e) => Err(e),
    }
}

/// What `show_archive_info` reports of an archive.
pub struct ArchiveInfo {
    pub creator: String,
    pub created_at: Time,
    pub modified_at: Time,
    pub total_files: usize,
    pub total_directories: usize,
    pub total_original_size: u64,
    pub total_compressed_size: u64,
    pub comment: Option<String>,
}

/// Opens an archive and summarizes its metadata: creator, times, counts of
/// files and directories, total sizes and comment. Totals that do not fit
/// in 64 bits are refused.
pub fn show_archive_info(archive: Vec<u8>, password: Option<&str>) -> (res: RzxResult<ArchiveInfo>)
    ensures
        match archive_open(archive@, password_bytes(password)) {
            Err(e) => res matches Err(e2) && e2 == e,
            Ok(o) => {
                let m = o.metadata;
                if sum_original(m.entries) > u64::MAX || sum_compressed(m.entries) > u64::MAX {
                    res matches Err(e) && e == RzxError::SizeOverflow
                } else {
                    res matches Ok(info) && {
                        &&& info.creator@ == m.creator
                        &&& info.created_at == m.created_at
                        &&& info.modified_at == m.modified_at
                        &&& info.total_files == count_kind(m.entries, false)
                        &&& info.total_directories == count_kind(m.entries, true)
                        &&& info.total_original_size == sum_original(m.entries)
                        &&& info.total_compressed_size == sum_compressed(m.entries)
                        &&& opt_text_view(info.comment) == m.comment
                    }
                }
            },
        },
{
    let reader = match RzxReader::new(archive, password) {
        Ok(r) => r,
        Err(e) => return Err(e),
    };
    let m = reader.metadata();
    let (total_original_size, total_compressed_size) = match m.checked_totals() {
        Some(t) => t,
        None => return Err(RzxError::SizeOverflow),
    };
    let comment = match &m.comment {
        Some(c) => Some(c.clone()),
        None => None,
    };
    Ok(ArchiveInfo {
        creator: m.creator.clone(),
        created_at: m.created_at,
        modified_at: m.modified_at,
        total_files: m.file_count(),
        total_directories: m.directory_count(),
        total_original_size,
        total_compressed_size,
        comment,
    })
}

} // verus!
