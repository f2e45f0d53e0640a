//! The RZX archive header: magic, version, encryption parameters and the
//! location and checksum of the metadata block.
use vstd::prelude::*;
use crate::rzx_core::codec::{
    Decoded, FormatError, dec_raw, dec_tag, dec_u16, dec_u32, dec_u64, enc_tag, enc_u16, enc_u32,
    enc_u64, get_tag, get_u16, get_u32, get_u64, lemma_assoc, lemma_bool_roundtrip,
    lemma_raw_roundtrip, lemma_skip_prefix, lemma_skip_skip, lemma_u16_roundtrip,
    lemma_u32_roundtrip, lemma_u64_roundtrip, put_bool, put_slice, put_u16, put_u32, put_u64,
};
use crate::rzx_core::{
    Corruption, EncryptionAlgorithm, RzxError, RzxResult, RZX_MAGIC, RZX_VERSION, rzx_magic,
};

verus! {

broadcast use vstd::array::group_array_axioms;

/// RZX archive header.
#[derive(Debug, Clone)]
pub struct RzxHeader {
    /// Magic bytes, "RzX\0".
    pub magic: [u8; 4],
    /// RZX format version.
    pub version: u16,
    /// Encryption algorithm used for the archive.
    pub encryption_algorithm: EncryptionAlgorithm,
    /// Salt for key derivation (if encrypted).
    pub salt: Option<[u8; 16]>,
    /// Nonce for encryption (if encrypted).
    pub nonce: Option<[u8; 12]>,
    /// Offset of the metadata block from the start of the archive.
    pub metadata_offset: u64,
    /// Size of the metadata block in bytes.
    pub metadata_size: u64,
    /// CRC-32 of the (decrypted) metadata block.
    pub metadata_checksum: u32,
}

/// The header as mathematical values.
pub struct HeaderModel {
    pub magic: Seq<u8>,
    pub version: u16,
    pub encryption_algorithm: EncryptionAlgorithm,
    pub salt: Option<Seq<u8>>,
    pub nonce: Option<Seq<u8>>,
    pub metadata_offset: u64,
    pub metadata_size: u64,
    pub metadata_checksum: u32,
}

pub open spec fn opt_array_view<const N: usize>(o: Option<[u8; N]>) -> Option<Seq<u8>> {
    match o {
        Some(a) => Some(a@),
        None => None,
    }
}

impl View for RzxHeader {
    type V = HeaderModel;

    open spec fn view(&self) -> HeaderModel {
        HeaderModel {
            magic: self.magic@,
            version: self.version,
            encryption_algorithm: self.encryption_algorithm,
            salt: opt_array_view(self.salt),
            nonce: opt_array_view(self.nonce),
            metadata_offset: self.metadata_offset,
            metadata_size: self.metadata_size,
            metadata_checksum: self.metadata_checksum,
        }
    }
}

/// The field sizes that arrays give every header.
pub open spec fn header_shaped(h: HeaderModel) -> bool {
    &&& h.magic.len() == 4
    &&& h.salt matches Some(s) ==> s.len() == 16
    &&& h.nonce matches Some(n) ==> n.len() == 12
}

pub open spec fn encryption_index(a: EncryptionAlgorithm) -> u32 {
    match a {
        EncryptionAlgorithm::NoEncryption => 0,
        EncryptionAlgorithm::Aes256Gcm => 1,
    }
}

pub open spec fn enc_opt_raw(o: Option<Seq<u8>>) -> Seq<u8> {
    match o {
        None => enc_tag(false),
        Some(s) => enc_tag(true) + s,
    }
}

/// The encoding of a header.
pub open spec fn enc_header(h: HeaderModel) -> Seq<u8> {
    h.magic + (enc_u16(h.version) + (enc_u32(encryption_index(h.encryption_algorithm)) + (
    enc_opt_raw(h.salt) + (enc_opt_raw(h.nonce) + (enc_u64(h.metadata_offset) + (enc_u64(
        h.metadata_size,
    ) + enc_u32(h.metadata_checksum)))))))
}

pub open spec fn dec_encryption(b: Seq<u8>) -> Decoded<EncryptionAlgorithm> {
    match dec_u32(b) {
        Err(e) => Err(e),
        Ok((i, n)) => if i == 0 {
            Ok((EncryptionAlgorithm::NoEncryption, n))
        } else if i == 1 {
            Ok((EncryptionAlgorithm::Aes256Gcm, n))
        } else {
            Err(FormatError::InvalidVariant(i))
        },
    }
}

/// The encryption algorithm in a header is stored as its code, 0 for none
/// and 1 for AES-256-GCM; each code reads back as its algorithm, and no
/// other code reads back at all.
pub proof fn lemma_encryption_codes(rest: Seq<u8>, i: u32)
    ensures
        encryption_index(EncryptionAlgorithm::NoEncryption) == 0,
        encryption_index(EncryptionAlgorithm::Aes256Gcm) == 1,
        dec_encryption(enc_u32(0) + rest) == Ok::<(EncryptionAlgorithm, int), FormatError>(
            (EncryptionAlgorithm::NoEncryption, 4),
        ),
        dec_encryption(enc_u32(1) + rest) == Ok::<(EncryptionAlgorithm, int), FormatError>(
            (EncryptionAlgorithm::Aes256Gcm, 4),
        ),
        i > 1 ==> dec_encryption(enc_u32(i) + rest) == Err::<(EncryptionAlgorithm, int), FormatError>(
            FormatError::InvalidVariant(i),
        ),
{
    lemma_u32_roundtrip(0, rest);
    lemma_u32_roundtrip(1, rest);
    lemma_u32_roundtrip(i, rest);
}

/// An optional fixed-size byte array: a tag, then `len` bytes if present.
pub open spec fn dec_opt_raw(b: Seq<u8>, len: nat) -> Decoded<Option<Seq<u8>>> {
    match dec_tag(b) {
        Err(e) => Err(e),
        Ok((present, n)) => if !present {
            Ok((None, n))
        } else {
            match dec_raw(b.skip(n), len) {
                Err(e) => Err(e),
                Ok((s, m)) => Ok((Some(s), n + m)),
            }
        },
    }
}

/// Decoding of a header from the front of `b`.
pub open spec fn dec_header(b: Seq<u8>) -> Decoded<HeaderModel> {
    match dec_raw(b, 4) {
        Err(e) => Err(e),
        Ok((magic, n1)) => {
            let b1 = b.skip(n1);
            match dec_u16(b1) {
                Err(e) => Err(e),
                Ok((version, n2)) => {
                    let b2 = b1.skip(n2);
                    match dec_encryption(b2) {
                        Err(e) => Err(e),
                        Ok((alg, n3)) => {
                            let b3 = b2.skip(n3);
                            match dec_opt_raw(b3, 16) {
                                Err(e) => Err(e),
                                Ok((salt, n4)) => {
                                    let b4 = b3.skip(n4);
                                    match dec_opt_raw(b4, 12) {
                                        Err(e) => Err(e),
                                        Ok((nonce, n5)) => {
                                            let b5 = b4.skip(n5);
                                            match dec_u64(b5) {
                                                Err(e) => Err(e),
                                                Ok((offset, n6)) => {
                                                    let b6 = b5.skip(n6);
                                                    match dec_u64(b6) {
                                                        Err(e) => Err(e),
                                                        Ok((size, n7)) => {
                                                            let b7 = b6.skip(n7);
                                                            match dec_u32(b7) {
                                                                Err(e) => Err(e),
                                                                Ok((checksum, n8)) => Ok(
                                                                    (
                                                                        HeaderModel {
                                                                            magic,
                                                                            version,
                                                                            encryption_algorithm: alg,
                                                                            salt,
                                                                            nonce,
                                                                            metadata_offset: offset,
                                                                            metadata_size: size,
                                                                            metadata_checksum: checksum,
                                                                        },
                                                                        n1 + n2 + n3 + n4 + n5 + n6
                                                                            + n7 + n8,
                                                                    ),
                                                                ),
                                                            }
                                                        },
                                                    }
                                                },
                                            }
                                        },
                                    }
                                },
                            }
                        },
                    }
                },
            }
        },
    }
}

/// What `validate` decides for a header.
pub open spec fn header_check(h: HeaderModel) -> Result<(), RzxError> {
    if h.magic != rzx_magic() {
        Err(RzxError::InvalidMagic)
    } else if h.version > RZX_VERSION {
        Err(RzxError::UnsupportedVersion(h.version))
    } else if h.encryption_algorithm != EncryptionAlgorithm::NoEncryption && (h.salt is None
        || h.nonce is None) {
        Err(RzxError::CorruptedArchive(Corruption::MissingSaltOrNonce))
    } else {
        Ok(())
    }
}

/// A header passes its checks exactly when its magic is the format's, its
/// version is at most 1, and an encrypted archive has both a salt and a
/// nonce; a wrong magic is reported first, then a newer version.
pub proof fn lemma_header_check_meaning(h: HeaderModel)
    ensures
        header_check(h) is Ok <==> h.magic == rzx_magic() && h.version <= 1 && (h.encryption_algorithm
            != EncryptionAlgorithm::NoEncryption ==> h.salt is Some && h.nonce is Some),
        h.magic != rzx_magic() ==> header_check(h) == Err::<(), RzxError>(RzxError::InvalidMagic),
        h.magic == rzx_magic() && h.version > 1 ==> header_check(h) == Err::<(), RzxError>(
            RzxError::UnsupportedVersion(h.version),
        ),
{
}

/// What `from_bytes` returns for a byte string, as a header model.
pub open spec fn header_from_bytes(b: Seq<u8>) -> Result<HeaderModel, RzxError> {
    match dec_header(b) {
        Err(e) => Err(RzxError::Serialization(e)),
        Ok((h, _)) => match header_check(h) {
            Err(e) => Err(e),
            Ok(_) => Ok(h),
        },
    }
}

/// The encoded length of a header: 32 bytes, plus 16 and 12 for a salt and
/// a nonce.
pub open spec fn header_len(h: HeaderModel) -> nat {
    32 + (if h.salt is Some { 16nat } else { 0nat }) + (if h.nonce is Some { 12nat } else { 0nat })
}

proof fn lemma_opt_raw_roundtrip(o: Option<Seq<u8>>, len: nat, rest: Seq<u8>)
    requires
        o matches Some(s) ==> s.len() == len,
    ensures
        enc_opt_raw(o).len() == 1 + (if o is Some { len } else { 0 }),
        dec_opt_raw(enc_opt_raw(o) + rest, len) == Ok::<(Option<Seq<u8>>, int), FormatError>(
            (o, enc_opt_raw(o).len() as int),
        ),
{
    match o {
        None => {},
        Some(s) => {
            let t = enc_tag(true);
            lemma_assoc(t, s, rest);
            lemma_bool_roundtrip(true, s + rest);
            lemma_skip_prefix(t, s + rest);
            lemma_raw_roundtrip(s, rest);
        },
    }
}

/// Decoding the encoding of a header gives the header back.
pub proof fn lemma_header_roundtrip(h: HeaderModel, rest: Seq<u8>)
    requires
        header_shaped(h),
    ensures
        enc_header(h).len() == header_len(h),
        dec_header(enc_header(h) + rest) == Ok::<(HeaderModel, int), FormatError>(
            (h, header_len(h) as int),
        ),
{
    let f8 = enc_u32(h.metadata_checksum);
    let f7 = enc_u64(h.metadata_size);
    let f6 = enc_u64(h.metadata_offset);
    let f5 = enc_opt_raw(h.nonce);
    let f4 = enc_opt_raw(h.salt);
    let f3 = enc_u32(encryption_index(h.encryption_algorithm));
    let f2 = enc_u16(h.version);
    let t7 = f7 + f8;
    let t6 = f6 + t7;
    let t5 = f5 + t6;
    let t4 = f4 + t5;
    let t3 = f3 + t4;
    let t2 = f2 + t3;
    let b = enc_header(h) + rest;
    assert(enc_header(h) == h.magic + t2);
    lemma_assoc(h.magic, t2, rest);
    lemma_raw_roundtrip(h.magic, t2 + rest);
    lemma_skip_prefix(h.magic, t2 + rest);
    lemma_assoc(f2, t3, rest);
    lemma_u16_roundtrip(h.version, t3 + rest);
    lemma_skip_prefix(f2, t3 + rest);
    lemma_assoc(f3, t4, rest);
    lemma_u32_roundtrip(encryption_index(h.encryption_algorithm), t4 + rest);
    lemma_skip_prefix(f3, t4 + rest);
    lemma_assoc(f4, t5, rest);
    lemma_opt_raw_roundtrip(h.salt, 16, t5 + rest);
    lemma_skip_prefix(f4, t5 + rest);
    lemma_assoc(f5, t6, rest);
    lemma_opt_raw_roundtrip(h.nonce, 12, t6 + rest);
    lemma_skip_prefix(f5, t6 + rest);
    lemma_assoc(f6, t7, rest);
    lemma_u64_roundtrip(h.metadata_offset, t7 + rest);
    lemma_skip_prefix(f6, t7 + rest);
    lemma_assoc(f7, f8, rest);
    lemma_u64_roundtrip(h.metadata_size, f8 + rest);
    lemma_skip_prefix(f7, f8 + rest);
    lemma_u32_roundtrip(h.metadata_checksum, rest);
}

/// A header that passes its checks reads back from its own encoding.
pub proof fn lemma_header_bytes_roundtrip(h: HeaderModel)
    requires
        header_shaped(h),
        header_check(h) is Ok,
    ensures
        header_from_bytes(enc_header(h)) == Ok::<HeaderModel, RzxError>(h),
{
    lemma_header_roundtrip(h, Seq::empty());
    assert(enc_header(h) + Seq::<u8>::empty() =~= enc_header(h));
}

/// The layout of an encoded header: it opens with the four magic bytes and
/// then the version, so both can be checked first; it is 32 bytes long
/// without salt and nonce (an unencrypted archive) and 60 bytes with both.
pub proof fn lemma_header_layout(h: HeaderModel)
    requires
        header_shaped(h),
    ensures
        enc_header(h).len() == header_len(h),
        enc_header(h).take(4) == h.magic,
        dec_u16(enc_header(h).skip(4)) == Ok::<(u16, int), FormatError>((h.version, 2)),
        h.salt is None && h.nonce is None ==> enc_header(h).len() == 32,
        h.salt is Some && h.nonce is Some ==> enc_header(h).len() == 60,
{
    let t = enc_u16(h.version) + (enc_u32(encryption_index(h.encryption_algorithm)) + (enc_opt_raw(h.salt)
        + (enc_opt_raw(h.nonce) + (enc_u64(h.metadata_offset) + (enc_u64(h.metadata_size) + enc_u32(
        h.metadata_checksum,
    ))))));
    let rest = enc_u32(encryption_index(h.encryption_algorithm)) + (enc_opt_raw(h.salt) + (enc_opt_raw(
        h.nonce,
    ) + (enc_u64(h.metadata_offset) + (enc_u64(h.metadata_size) + enc_u32(h.metadata_checksum)))));
    assert(enc_header(h) == h.magic + t);
    lemma_u16_roundtrip(h.version, rest);
    lemma_u32_roundtrip(encryption_index(h.encryption_algorithm), Seq::empty());
    lemma_u32_roundtrip(h.metadata_checksum, Seq::empty());
    lemma_u64_roundtrip(h.metadata_offset, Seq::empty());
    lemma_u64_roundtrip(h.metadata_size, Seq::empty());
    lemma_opt_raw_roundtrip(h.salt, 16, Seq::empty());
    lemma_opt_raw_roundtrip(h.nonce, 12, Seq::empty());
    assert((h.magic + t).take(4) =~= h.magic);
    assert((h.magic + t).skip(4) =~= t);
}

fn put_opt_raw<const N: usize>(out: &mut Vec<u8>, o: &Option<[u8; N]>)
    ensures
        final(out)@ == old(out)@ + enc_opt_raw(opt_array_view(*o)),
{
    match o {
        None => {
            put_bool(out, false);
        },
        Some(a) => {
            put_bool(out, true);
            put_slice(out, a.as_slice());
            proof {
                lemma_assoc(old(out)@, enc_tag(true), a@);
            }
        },
    }
}

fn get_opt_16(buf: &[u8], pos: usize) -> (res: Result<(Option<[u8; 16]>, usize), FormatError>)
    requires
        pos <= buf@.len(),
    ensures
        match res {
            Ok((v, p)) => dec_opt_raw(buf@.skip(pos as int), 16) == Ok::<(Option<Seq<u8>>, int), FormatError>((opt_array_view(v), p - pos)),
            Err(e) => dec_opt_raw(buf@.skip(pos as int), 16) == Err::<(Option<Seq<u8>>, int), FormatError>(e),
        },
        res matches Ok((_, p)) ==> pos < p <= buf@.len(),
{
    let (present, p1) = match get_tag(buf, pos) {
        Ok(x) => x,
        Err(e) => return Err(e),
    };
    if !present {
        return Ok((None, p1));
    }
    proof {
        lemma_skip_skip(buf@, pos as int, p1 - pos);
    }
    if buf.len() - p1 < 16 {
        return Err(FormatError::UnexpectedEnd);
    }
    let mut a = [0u8; 16];
    let mut i: usize = 0;
    while i < 16
        invariant
            p1 + 16 <= buf@.len(),
            buf@.len() == buf.len(),
            i <= 16,
            forall|k: int| 0 <= k < i ==> a@[k] == buf@[p1 + k],
        decreases 16 - i,
    {
        a[i] = buf[p1 + i];
        i = i + 1;
    }
    assert(a@ =~= buf@.skip(p1 as int).take(16));
    Ok((Some(a), p1 + 16))
}

fn get_opt_12(buf: &[u8], pos: usize) -> (res: Result<(Option<[u8; 12]>, usize), FormatError>)
    requires
        pos <= buf@.len(),
    ensures
        match res {
            Ok((v, p)) => dec_opt_raw(buf@.skip(pos as int), 12) == Ok::<(Option<Seq<u8>>, int), FormatError>((opt_array_view(v), p - pos)),
            Err(e) => dec_opt_raw(buf@.skip(pos as int), 12) == Err::<(Option<Seq<u8>>, int), FormatError>(e),
        },
        res matches Ok((_, p)) ==> pos < p <= buf@.len(),
{
    let (present, p1) = match get_tag(buf, pos) {
        Ok(x) => x,
        Err(e) => return Err(e),
    };
    if !present {
        return Ok((None, p1));
    }
    proof {
        lemma_skip_skip(buf@, pos as int, p1 - pos);
    }
    if buf.len() - p1 < 12 {
        return Err(FormatError::UnexpectedEnd);
    }
    let mut a = [0u8; 12];
    let mut i: usize = 0;
    while i < 12
        invariant
            p1 + 12 <= buf@.len(),
            buf@.len() == buf.len(),
            i <= 12,
            forall|k: int| 0 <= k < i ==> a@[k] == buf@[p1 + k],
        decreases 12 - i,
    {
        a[i] = buf[p1 + i];
        i = i + 1;
    }
    assert(a@ =~= buf@.skip(p1 as int).take(12));
    Ok((Some(a), p1 + 12))
}

fn get_magic(buf: &[u8]) -> (res: Result<([u8; 4], usize), FormatError>)
    ensures
        match res {
            Ok((v, p)) => dec_raw(buf@, 4) == Ok::<(Seq<u8>, int), FormatError>((v@, p as int)),
            Err(e) => dec_raw(buf@, 4) == Err::<(Seq<u8>, int), FormatError>(e),
        },
        res matches Ok((_, p)) ==> p <= buf@.len(),
{
    if buf.len() < 4 {
        return Err(FormatError::UnexpectedEnd);
    }
    let a = [buf[0], buf[1], buf[2], buf[3]];
    assert(a@ =~= buf@.take(4));
    Ok((a, 4))
}

impl RzxHeader {
    /// Creates a header of the current format version with the RZX magic.
    pub fn new(
        encryption_algorithm: EncryptionAlgorithm,
        salt: Option<[u8; 16]>,
        nonce: Option<[u8; 12]>,
        metadata_offset: u64,
        metadata_size: u64,
        metadata_checksum: u32,
    ) -> (h: Self)
        ensures
            h@.magic == rzx_magic(),
            h.version == RZX_VERSION,
            h.encryption_algorithm == encryption_algorithm,
            h.salt == salt,
            h.nonce == nonce,
            h.metadata_offset == metadata_offset,
            h.metadata_size == metadata_size,
            h.metadata_checksum == metadata_checksum,
    {
        let h = RzxHeader {
            magic: RZX_MAGIC,
            version: RZX_VERSION,
            encryption_algorithm,
            salt,
            nonce,
            metadata_offset,
            metadata_size,
            metadata_checksum,
        };
        assert(h.magic@ =~= rzx_magic());
        h
    }

    /// Checks the magic, the version, and that an encrypted archive has a
    /// salt and a nonce.
    pub fn validate(&self) -> (res: RzxResult<()>)
        ensures
            res == header_check(self@),
    {
        if !(self.magic[0] == 82 && self.magic[1] == 122 && self.magic[2] == 88 && self.magic[3]
            == 0) {
            assert(self.magic@ != rzx_magic()) by {
                if self.magic@ == rzx_magic() {
                    assert(self.magic@[0] == 82);
                }
            }
            return Err(RzxError::InvalidMagic);
        }
        assert(self.magic@ =~= rzx_magic());
        if self.version > RZX_VERSION {
            return Err(RzxError::UnsupportedVersion(self.version));
        }
        match self.encryption_algorithm {
            EncryptionAlgorithm::NoEncryption => {},
            _ => {
                if self.salt.is_none() || self.nonce.is_none() {
                    return Err(RzxError::CorruptedArchive(Corruption::MissingSaltOrNonce));
                }
            },
        }
        Ok(())
    }

    /// Encodes the header.
    pub fn to_bytes(&self) -> (res: RzxResult<Vec<u8>>)
        ensures
            res matches Ok(b) && b@ == enc_header(self@),
    {
        let mut out: Vec<u8> = Vec::new();
        put_slice(&mut out, self.magic.as_slice());
        put_u16(&mut out, self.version);
        match self.encryption_algorithm {
            EncryptionAlgorithm::NoEncryption => put_u32(&mut out, 0),
            EncryptionAlgorithm::Aes256Gcm => put_u32(&mut out, 1),
        }
        put_opt_raw(&mut out, &self.salt);
        put_opt_raw(&mut out, &self.nonce);
        put_u64(&mut out, self.metadata_offset);
        put_u64(&mut out, self.metadata_size);
        put_u32(&mut out, self.metadata_checksum);
        proof {
            let h = self@;
            assert(out@ =~= enc_header(h));
        }
        Ok(out)
    }

    /// Decodes a header from the front of `bytes` (later bytes are ignored)
    /// and validates it.
    pub fn from_bytes(bytes: &[u8]) -> (res: RzxResult<Self>)
        ensures
            match res {
                Ok(h) => header_from_bytes(bytes@) == Ok::<HeaderModel, RzxError>(h@),
                Err(e) => header_from_bytes(bytes@) == Err::<HeaderModel, RzxError>(e),
            },
    {
        let header = match Self::decode(bytes) {
            Ok((h, _)) => h,
            Err(e) => return Err(RzxError::Serialization(e)),
        };
        match header.validate() {
            Ok(()) => Ok(header),
            Err(e) => Err(e),
        }
    }

    /// Decodes a header from the front of `bytes`; also gives its length.
    pub fn decode(bytes: &[u8]) -> (res: Result<(Self, usize), FormatError>)
        ensures
            match res {
                Ok((h, n)) => dec_header(bytes@) == Ok::<(HeaderModel, int), FormatError>((h@, n as int)),
                Err(e) => dec_header(bytes@) == Err::<(HeaderModel, int), FormatError>(e),
            },
            res matches Ok((_, n)) ==> n <= bytes@.len(),
    {
        let ghost b = bytes@;
        let (magic, p1) = match get_magic(bytes) {
            Ok(x) => x,
            Err(e) => return Err(e),
        };
        let ghost b1 = b.skip(p1 as int);
        let (version, p2) = match get_u16(bytes, p1) {
            Ok(x) => x,
            Err(e) => return Err(e),
        };
        proof { lemma_skip_skip(b, p1 as int, p2 - p1); }
        let ghost b2 = b.skip(p2 as int);
        let (idx, p3) = match get_u32(bytes, p2) {
            Ok(x) => x,
            Err(e) => return Err(e),
        };
        let alg = if idx == 0 {
            EncryptionAlgorithm::NoEncryption
        } else if idx == 1 {
            EncryptionAlgorithm::Aes256Gcm
        } else {
            return Err(FormatError::InvalidVariant(idx));
        };
        proof { lemma_skip_skip(b, p2 as int, p3 - p2); }
        let (salt, p4) = match get_opt_16(bytes, p3) {
            Ok(x) => x,
            Err(e) => return Err(e),
        };
        proof { lemma_skip_skip(b, p3 as int, p4 - p3); }
        let (nonce, p5) = match get_opt_12(bytes, p4) {
            Ok(x) => x,
            Err(e) => return Err(e),
        };
        proof { lemma_skip_skip(b, p4 as int, p5 - p4); }
        let (offset, p6) = match get_u64(bytes, p5) {
            Ok(x) => x,
            Err(e) => return Err(e),
        };
        proof { lemma_skip_skip(b, p5 as int, p6 - p5); }
        let (size, p7) = match get_u64(bytes, p6) {
            Ok(x) => x,
            Err(e) => return Err(e),
        };
        proof { lemma_skip_skip(b, p6 as int, p7 - p6); }
        let (checksum, p8) = match get_u32(bytes, p7) {
            Ok(x) => x,
            Err(e) => return Err(e),
        };
        let h = RzxHeader {
            magic,
            version,
            encryption_algorithm: alg,
            salt,
            nonce,
            metadata_offset: offset,
            metadata_size: size,
            metadata_checksum: checksum,
        };
        Ok((h, p8))
    }
}

} // verus!
