//! Files that carry a compressed comparison behind a fixed header.

use vstd::prelude::*;
use vstd::slice::slice_subrange;
use vstd::string::*;

use crate::bytes::{push_all, push_le, read_le};
use crate::digest::sha256;
use crate::text::{decimal_text, hex_number, same_bytes};

use crate::{bytes, digest, text};

verus! {

/// The version of the files.
pub const CURRENT_VERSION: u32 = 2;

/// The bytes of a header.
pub const FILE_HEADER_SIZE: usize = 64;

/// The largest payload, compressed or not.
pub const MAX_DUMP_SIZE: u64 = 0x1_0000_0000;

/// The first bytes of every file.
pub fn magic_bytes() -> (magic: [u8; 4])
    ensures
        magic@ == seq![0x41u8, 0x53, 0x54, 0x44],
{
    let magic: [u8; 4] = [0x41, 0x53, 0x54, 0x44];
    assert(magic@ =~= seq![0x41u8, 0x53, 0x54, 0x44]);
    magic
}

/// Why a file was refused or not written.
#[derive(Debug, Clone, Copy, PartialEq, Eq, Structural)]
pub enum DumpError {
    TooShort,
    Magic,
    Version(u32),
    Flags(u64),
    TooLarge,
    PayloadLength,
    Checksum,
    /// The payload cannot be compressed.
    Compression,
    /// The payload cannot be decompressed.
    Decompression,
    /// The decompressed payload has another length.
    Size,
    PayloadTooLarge,
    /// The decoded payload is of another version.
    PayloadHeader,
}

impl DumpError {
    /// What to tell about the refusal.
    pub open spec fn message_spec(self) -> Seq<char> {
        match self {
            DumpError::TooShort => "dump is truncated or uses the unsupported legacy v1 format"@,
            DumpError::Magic => "invalid dump magic; legacy headerless dumps are not supported"@,
            DumpError::Version(version) => "unsupported dump version "@ + text::decimal_of(
                version as nat,
            ) + "; expected "@ + text::decimal_of(CURRENT_VERSION as nat),
            DumpError::Flags(flags) => "unsupported dump flags: 0x"@ + text::hex_number_of(
                flags as nat,
            ),
            DumpError::TooLarge => "dump exceeds the configured 4294967296 byte limit"@,
            DumpError::PayloadLength => "dump payload length does not match its header"@,
            DumpError::Checksum => "dump payload checksum mismatch"@,
            DumpError::Compression => "failed to compress dump payload"@,
            DumpError::Decompression => "failed to decompress dump payload"@,
            DumpError::Size => "decompressed dump size does not match its header"@,
            DumpError::PayloadTooLarge => "dump payload exceeds 4294967296 bytes"@,
            DumpError::PayloadHeader => "dump payload header does not match its file header"@,
        }
    }

    /// What to tell about the refusal.
    pub fn message(self) -> (message: String)
        ensures
            message@ == self.message_spec(),
    {
        match self {
            DumpError::TooShort =>
                "dump is truncated or uses the unsupported legacy v1 format".to_string(),
            DumpError::Magic =>
                "invalid dump magic; legacy headerless dumps are not supported".to_string(),
            DumpError::Version(version) => "unsupported dump version ".to_string().concat(
                decimal_text(version as u64).as_str(),
            ).concat("; expected ").concat(decimal_text(CURRENT_VERSION as u64).as_str()),
            DumpError::Flags(flags) => "unsupported dump flags: 0x".to_string().concat(
                hex_number(flags).as_str(),
            ),
            DumpError::TooLarge => "dump exceeds the configured 4294967296 byte limit".to_string(),
            DumpError::PayloadLength =>
                "dump payload length does not match its header".to_string(),
            DumpError::Checksum => "dump payload checksum mismatch".to_string(),
            DumpError::Compression => "failed to compress dump payload".to_string(),
            DumpError::Decompression => "failed to decompress dump payload".to_string(),
            DumpError::Size => "decompressed dump size does not match its header".to_string(),
            DumpError::PayloadTooLarge => "dump payload exceeds 4294967296 bytes".to_string(),
            DumpError::PayloadHeader =>
                "dump payload header does not match its file header".to_string(),
        }
    }
}

/// What `zstd::encode_all` makes of bytes at a level, where it makes anything.
pub uninterp spec fn packed(data: Seq<u8>, level: i32) -> Option<Seq<u8>>;

/// What reading at most a number of bytes from `zstd::stream::read::Decoder`
/// gives, where it gives anything.
pub uninterp spec fn unpacked(data: Seq<u8>, limit: u64) -> Option<Seq<u8>>;

/// Calls `zstd::encode_all`, which compresses bytes into a frame. Claims that
/// the frame, and whether there is one, is a function of the bytes and the
/// level, and that a decoder which may read as many bytes as went in gives them
/// back.
#[verifier::external_body]
fn compress(data: &[u8], level: i32) -> (r: Option<Vec<u8>>)
    ensures
        match r {
            Some(bytes) => packed(data@, level) == Some(bytes@) && forall|limit: u64|
                limit >= data@.len() ==> #[trigger] unpacked(bytes@, limit) == Some(data@),
            None => packed(data@, level) is None,
        },
{
    zstd::encode_all(data, level).ok()
}

/// Reads at most `limit` bytes from `zstd::stream::read::Decoder`, which
/// decompresses frames. Claims that what it gives is a function of the bytes
/// and the limit, and no longer than the limit.
#[verifier::external_body]
fn decompress(data: &[u8], limit: u64) -> (r: Option<Vec<u8>>)
    ensures
        match r {
            Some(bytes) => unpacked(data@, limit) == Some(bytes@) && bytes@.len() <= limit,
            None => unpacked(data@, limit) is None,
        },
{
    let decoder = zstd::stream::read::Decoder::new(data).ok()?;
    let mut bytes = Vec::new();
    std::io::Read::read_to_end(&mut std::io::Read::take(decoder, limit), &mut bytes).ok()?;
    Some(bytes)
}

/// The header of a file.
pub open spec fn header_of(size: int, compressed: Seq<u8>) -> Seq<u8> {
    seq![0x41u8, 0x53, 0x54, 0x44] + bytes::le_bytes(CURRENT_VERSION as int, 4) + bytes::le_bytes(
        1,
        8,
    ) + bytes::le_bytes(size, 8) + bytes::le_bytes(compressed.len() as int, 8)
        + digest::sha256_of(compressed)
}

/// The number at a place of a file.
pub open spec fn number_at(file: Seq<u8>, at: int, width: int) -> int {
    bytes::le_value(file.subrange(at, at + width))
}

/// The length that a file's payload is to have.
pub open spec fn size_in(file: Seq<u8>) -> int {
    number_at(file, 16, 8)
}

/// The compressed payload of a file.
pub open spec fn payload_in(file: Seq<u8>) -> Seq<u8> {
    file.subrange(64, file.len() as int)
}

/// Why a file is refused before its payload is decompressed, if so.
pub open spec fn file_fault(file: Seq<u8>) -> Option<DumpError> {
    if file.len() < 64 {
        Some(DumpError::TooShort)
    } else if file.subrange(0, 4) != seq![0x41u8, 0x53, 0x54, 0x44] {
        Some(DumpError::Magic)
    } else if number_at(file, 4, 4) != CURRENT_VERSION {
        Some(DumpError::Version(number_at(file, 4, 4) as u32))
    } else if number_at(file, 8, 8) != 1 {
        Some(DumpError::Flags(number_at(file, 8, 8) as u64))
    } else if size_in(file) > MAX_DUMP_SIZE || number_at(file, 24, 8) > MAX_DUMP_SIZE {
        Some(DumpError::TooLarge)
    } else if file.len() != 64 + number_at(file, 24, 8) {
        Some(DumpError::PayloadLength)
    } else if digest::sha256_of(payload_in(file)) != file.subrange(32, 64) {
        Some(DumpError::Checksum)
    } else {
        None
    }
}

fn bytes_are(file: &[u8], at: usize, part: &[u8]) -> (r: bool)
    requires
        at + part@.len() <= file@.len(),
    ensures
        r == (file@.subrange(at as int, at + part@.len()) == part@),
{
    let length: usize = file.len();
    let end: usize = at + part.len();
    assert(end <= length);
    same_bytes(slice_subrange(file, at, end), part)
}

/// Puts the header of a file in front of its compressed payload.
pub fn frame(size: u64, compressed: &[u8]) -> (file: Vec<u8>)
    ensures
        file@ == header_of(size as int, compressed@) + compressed@,
        digest::sha256_of(compressed@).len() == 32,
        file@.len() == 64 + compressed@.len(),
{
    let mut file: Vec<u8> = Vec::new();
    push_all(&mut file, magic_bytes().as_slice());
    push_le(&mut file, CURRENT_VERSION as u64, 4);
    push_le(&mut file, 1, 8);
    push_le(&mut file, size, 8);
    push_le(&mut file, compressed.len() as u64, 8);
    push_all(&mut file, sha256(compressed).as_slice());
    push_all(&mut file, compressed);
    assert(file@ =~= header_of(size as int, compressed@) + compressed@);
    proof {
        bytes::lemma_le_bytes_len(CURRENT_VERSION as int, 4);
        bytes::lemma_le_bytes_len(1, 8);
        bytes::lemma_le_bytes_len(size as int, 8);
        bytes::lemma_le_bytes_len(compressed@.len() as int, 8);
    }
    file
}

/// Whether a file carries a payload in its compressed form, which a decoder
/// that may read as many bytes as the payload has gives back.
pub open spec fn carries(file: Seq<u8>, data: Seq<u8>, compressed: Seq<u8>) -> bool {
    &&& file == header_of(data.len() as int, compressed) + compressed
    &&& file.len() == 64 + compressed.len()
    &&& digest::sha256_of(compressed).len() == 32
    &&& forall|limit: u64|
        limit >= data.len() ==> #[trigger] unpacked(compressed, limit) == Some(data)
}

/// Writes a file that holds a payload.
pub fn write_dump(data: &[u8]) -> (r: Result<Vec<u8>, DumpError>)
    ensures
        if data@.len() > MAX_DUMP_SIZE {
            r == Err::<Vec<u8>, DumpError>(DumpError::PayloadTooLarge)
        } else {
            match (r, packed(data@, 3)) {
                (Ok(file), Some(bytes)) => carries(file@, data@, bytes),
                (Err(error), None) => error == DumpError::Compression,
                _ => false,
            }
        },
{
    if data.len() as u64 > MAX_DUMP_SIZE {
        return Err(DumpError::PayloadTooLarge);
    }
    match compress(data, 3) {
        Some(compressed) => Ok(frame(data.len() as u64, compressed.as_slice())),
        None => Err(DumpError::Compression),
    }
}

/// Checks a file up to its payload, and gives the length that the payload is
/// to have.
pub fn check_file(file: &[u8]) -> (r: Result<u64, DumpError>)
    ensures
        match (r, file_fault(file@)) {
            (Ok(size), None) => size == size_in(file@),
            (Err(error), Some(fault)) => error == fault,
            _ => false,
        },
{
    let length: usize = file.len();
    if length < FILE_HEADER_SIZE {
        return Err(DumpError::TooShort);
    }
    if !bytes_are(file, 0, magic_bytes().as_slice()) {
        return Err(DumpError::Magic);
    }
    proof {
        bytes::lemma_byte_ranges();
        bytes::law_le_value_writes_back(file@.subrange(4, 8));
    }
    let version: u64 = read_le(file, 4, 4);
    if version != CURRENT_VERSION as u64 {
        return Err(DumpError::Version(version as u32));
    }
    let flags: u64 = read_le(file, 8, 8);
    if flags != 1 {
        return Err(DumpError::Flags(flags));
    }
    let size: u64 = read_le(file, 16, 8);
    let compressed: u64 = read_le(file, 24, 8);
    if size > MAX_DUMP_SIZE || compressed > MAX_DUMP_SIZE {
        return Err(DumpError::TooLarge);
    }
    if length as u64 - FILE_HEADER_SIZE as u64 != compressed {
        return Err(DumpError::PayloadLength);
    }
    let payload = slice_subrange(file, FILE_HEADER_SIZE, length);
    let checksum = sha256(payload);
    if !bytes_are(file, 32, checksum.as_slice()) {
        return Err(DumpError::Checksum);
    }
    Ok(size)
}

/// Accepts a decompressed payload of the right length.
pub fn accept(size: u64, data: Option<Vec<u8>>) -> (r: Result<Vec<u8>, DumpError>)
    ensures
        match data {
            None => r == Err::<Vec<u8>, DumpError>(DumpError::Decompression),
            Some(bytes) => if bytes@.len() == size {
                r == Ok::<Vec<u8>, DumpError>(bytes)
            } else {
                r == Err::<Vec<u8>, DumpError>(DumpError::Size)
            },
        },
{
    match data {
        None => Err(DumpError::Decompression),
        Some(bytes) => if bytes.len() as u64 == size {
            Ok(bytes)
        } else {
            Err(DumpError::Size)
        },
    }
}

/// The payload of a file, where the file is accepted.
pub open spec fn payload_of(file: Seq<u8>) -> Result<Seq<u8>, DumpError> {
    match file_fault(file) {
        Some(fault) => Err(fault),
        None => match unpacked(payload_in(file), (size_in(file) + 1) as u64) {
            None => Err(DumpError::Decompression),
            Some(data) => if data.len() == size_in(file) {
                Ok(data)
            } else {
                Err(DumpError::Size)
            },
        },
    }
}

/// Reads the payload of a file.
pub fn read_dump(file: &[u8]) -> (r: Result<Vec<u8>, DumpError>)
    ensures
        match (r, payload_of(file@)) {
            (Ok(data), Ok(payload)) => data@ == payload,
            (Err(a), Err(b)) => a == b,
            _ => false,
        },
{
    let size = match check_file(file) {
        Ok(size) => size,
        Err(error) => {
            return Err(error);
        },
    };
    let length: usize = file.len();
    let data = decompress(slice_subrange(file, FILE_HEADER_SIZE, length), size + 1);
    accept(size, data)
}

/// Whether a decoded payload carries what its file says.
pub fn check_payload(magic: &[u8; 4], version: u32) -> (r: Result<(), DumpError>)
    ensures
        r == (if magic@ == seq![0x41u8, 0x53, 0x54, 0x44] && version == CURRENT_VERSION {
            Ok(())
        } else {
            Err(DumpError::PayloadHeader)
        }),
{
    if !same_bytes(magic.as_slice(), magic_bytes().as_slice()) || version
        != CURRENT_VERSION {
        return Err(DumpError::PayloadHeader);
    }
    Ok(())
}

/// What was written is read back: a file that carries a payload gives the
/// payload, where its compressed form is within the limit as well.
pub proof fn law_dumps_read_back(file: Seq<u8>, data: Seq<u8>, compressed: Seq<u8>)
    requires
        data.len() <= MAX_DUMP_SIZE,
        carries(file, data, compressed),
        file.len() <= FILE_HEADER_SIZE + MAX_DUMP_SIZE,
    ensures
        payload_of(file) == Ok::<Seq<u8>, DumpError>(data),
{
    bytes::lemma_byte_ranges();
    bytes::law_le_bytes_read_back(CURRENT_VERSION as int, 4);
    bytes::law_le_bytes_read_back(1, 8);
    bytes::law_le_bytes_read_back(data.len() as int, 8);
    bytes::law_le_bytes_read_back(compressed.len() as int, 8);
    assert(file.subrange(0, 4) =~= seq![0x41u8, 0x53, 0x54, 0x44]);
    assert(file.subrange(4, 8) =~= bytes::le_bytes(CURRENT_VERSION as int, 4));
    assert(file.subrange(8, 16) =~= bytes::le_bytes(1, 8));
    assert(file.subrange(16, 24) =~= bytes::le_bytes(data.len() as int, 8));
    assert(file.subrange(24, 32) =~= bytes::le_bytes(compressed.len() as int, 8));
    assert(file.subrange(32, 64) =~= digest::sha256_of(compressed));
    assert(payload_in(file) =~= compressed);
    assert(unpacked(compressed, (data.len() + 1) as u64) == Some(data));
}

} // verus!
