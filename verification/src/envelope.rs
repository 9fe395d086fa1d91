//! Files that carry a payload behind a fixed header with digests.

use vstd::prelude::*;
use vstd::slice::slice_subrange;
use vstd::string::*;

use crate::bytes::{push_all, push_le, read_le};
use crate::digest::sha256;

use crate::{bytes, digest};

verus! {

/// The version of the container.
pub const CONTAINER_VERSION: u64 = 1;

/// The flags of a container with a positioned payload.
pub const POSITIONED: u64 = 1;

/// The largest payload of any container.
pub const MAX_PAYLOAD: u64 = 0x1_0000_0000;

/// A format of files.
#[derive(Debug, Clone, Copy)]
pub struct Format {
    /// The first bytes of every file.
    pub magic: [u8; 8],
    /// Whether files carry a second digest.
    pub has_second: bool,
}

/// Files that hold an analysis.
pub fn analysis_format() -> (format: Format)
    ensures
        format.magic@ == seq![0x41u8, 0x53, 0x54, 0x49, 0x52, 0, 0, 0],
        !format.has_second,
{
    let format = Format { magic: [0x41, 0x53, 0x54, 0x49, 0x52, 0, 0, 0], has_second: false };
    assert(format.magic@ =~= seq![0x41u8, 0x53, 0x54, 0x49, 0x52, 0, 0, 0]);
    format
}

/// Files that hold a source map.
pub fn source_map_format() -> (format: Format)
    ensures
        format.magic@ == seq![0x41u8, 0x53, 0x54, 0x53, 0x4d, 0, 0, 0],
        format.has_second,
{
    let format = Format { magic: [0x41, 0x53, 0x54, 0x53, 0x4d, 0, 0, 0], has_second: true };
    assert(format.magic@ =~= seq![0x41u8, 0x53, 0x54, 0x53, 0x4d, 0, 0, 0]);
    format
}

/// What a file carries besides its payload.
#[derive(Debug, Clone, Copy)]
pub struct Labels {
    /// The hash of the layout of the payload.
    pub layout: [u8; 32],
    pub first: [u8; 32],
    /// Counts only where the format has a second digest.
    pub second: [u8; 32],
}

/// Why a file was refused.
#[derive(Debug, Clone, Copy, PartialEq, Eq, Structural)]
pub enum EnvelopeError {
    TooShort,
    Magic,
    Version,
    Flags,
    HeaderSize,
    Reserved,
    Layout,
    PayloadTooLarge,
    PayloadLength,
    PayloadDigest,
    /// The file belongs to another source.
    SourceDigest,
}

/// The bytes of a header.
pub open spec fn header_size(format: Format) -> int {
    if format.has_second {
        160
    } else {
        128
    }
}

/// Where the length of the payload stands.
pub open spec fn length_at(format: Format) -> int {
    header_size(format) - 16
}

/// The header of a file.
pub open spec fn header_of(
    format: Format,
    layout: Seq<u8>,
    first: Seq<u8>,
    second: Seq<u8>,
    payload: Seq<u8>,
) -> Seq<u8> {
    format.magic@ + bytes::le_bytes(1, 2) + bytes::le_bytes(1, 2) + bytes::le_bytes(
        header_size(format),
        4,
    ) + layout + first + digest::sha256_of(payload) + (if format.has_second {
        second
    } else {
        Seq::empty()
    }) + bytes::le_bytes(payload.len() as int, 8) + bytes::le_bytes(0, 8)
}

/// The number at a place of a file.
pub open spec fn number_at(file: Seq<u8>, at: int, width: int) -> int {
    bytes::le_value(file.subrange(at, at + width))
}

/// Why a file is refused, if so.
pub open spec fn envelope_fault(format: Format, layout: Seq<u8>, file: Seq<u8>, limit: u64) -> Option<
    EnvelopeError,
> {
    let size = header_size(format);
    let length = number_at(file, length_at(format), 8);
    if file.len() < size {
        Some(EnvelopeError::TooShort)
    } else if file.subrange(0, 8) != format.magic@ {
        Some(EnvelopeError::Magic)
    } else if number_at(file, 8, 2) != CONTAINER_VERSION {
        Some(EnvelopeError::Version)
    } else if number_at(file, 10, 2) != POSITIONED {
        Some(EnvelopeError::Flags)
    } else if number_at(file, 12, 4) != size {
        Some(EnvelopeError::HeaderSize)
    } else if number_at(file, size - 8, 8) != 0 {
        Some(EnvelopeError::Reserved)
    } else if file.subrange(16, 48) != layout {
        Some(EnvelopeError::Layout)
    } else if length > limit || length > MAX_PAYLOAD {
        Some(EnvelopeError::PayloadTooLarge)
    } else if size + length != file.len() {
        Some(EnvelopeError::PayloadLength)
    } else if file.subrange(80, 112) != digest::sha256_of(
        file.subrange(size, file.len() as int),
    ) {
        Some(EnvelopeError::PayloadDigest)
    } else {
        None
    }
}

/// Writes a file.
pub fn write_envelope(format: &Format, labels: &Labels, payload: &[u8]) -> (r: Result<
    Vec<u8>,
    EnvelopeError,
>)
    ensures
        match r {
            Ok(file) => payload@.len() <= MAX_PAYLOAD && file@ == header_of(
                *format,
                labels.layout@,
                labels.first@,
                labels.second@,
                payload@,
            ) + payload@,
            Err(error) => payload@.len() > MAX_PAYLOAD && error
                == EnvelopeError::PayloadTooLarge,
        },
{
    if payload.len() as u64 > MAX_PAYLOAD {
        return Err(EnvelopeError::PayloadTooLarge);
    }
    let size: u64 = if format.has_second {
        160
    } else {
        128
    };
    let mut file: Vec<u8> = Vec::new();
    push_all(&mut file, format.magic.as_slice());
    push_le(&mut file, CONTAINER_VERSION, 2);
    push_le(&mut file, POSITIONED, 2);
    push_le(&mut file, size, 4);
    push_all(&mut file, labels.layout.as_slice());
    push_all(&mut file, labels.first.as_slice());
    push_all(&mut file, sha256(payload).as_slice());
    if format.has_second {
        push_all(&mut file, labels.second.as_slice());
    }
    push_le(&mut file, payload.len() as u64, 8);
    push_le(&mut file, 0, 8);
    push_all(&mut file, payload);
    assert(file@ =~= header_of(
        *format,
        labels.layout@,
        labels.first@,
        labels.second@,
        payload@,
    ) + payload@);
    Ok(file)
}

/// A file whose header was checked.
#[derive(Debug, Clone, Copy)]
pub struct Opened {
    pub first: [u8; 32],
    /// Where the second digest stands in formats that have one.
    pub second: [u8; 32],
    /// Where the payload starts.
    pub payload: usize,
}

fn same_range(file: &[u8], at: usize, part: &[u8]) -> (r: bool)
    requires
        at + part@.len() <= file@.len(),
    ensures
        r == (file@.subrange(at as int, at + part@.len()) == part@),
{
    let length: usize = file.len();
    let mut i: usize = 0;
    while i < part.len()
        invariant
            length == file@.len(),
            at + part@.len() <= length,
            i <= part@.len(),
            forall|k: int| 0 <= k < i ==> #[trigger] part@[k] == file@[at + k],
        decreases part@.len() - i,
    {
        if file[at + i] != part[i] {
            assert(file@.subrange(at as int, at + part@.len())[i as int] != part@[i as int]);
            return false;
        }
        i += 1;
    }
    assert(file@.subrange(at as int, at + part@.len()) =~= part@);
    true
}

fn digest_at(file: &[u8], at: usize) -> (digest: [u8; 32])
    requires
        at + 32 <= file@.len(),
    ensures
        digest@ == file@.subrange(at as int, at + 32),
{
    let length: usize = file.len();
    let mut digest: [u8; 32] = [0; 32];
    let mut i: usize = 0;
    while i < 32
        invariant
            length == file@.len(),
            at + 32 <= length,
            i <= 32,
            forall|k: int| 0 <= k < i ==> #[trigger] digest@[k] == file@[at + k],
        decreases 32 - i,
    {
        digest[i] = file[at + i];
        i += 1;
    }
    assert(digest@ =~= file@.subrange(at as int, at + 32));
    digest
}

/// Checks the header and the payload digest of a file.
pub fn open_envelope(format: &Format, layout: &[u8; 32], file: &[u8], limit: u64) -> (r: Result<
    Opened,
    EnvelopeError,
>)
    ensures
        match (r, envelope_fault(*format, layout@, file@, limit)) {
            (Ok(opened), None) => opened.payload == header_size(*format) && opened.first@
                == file@.subrange(48, 80) && (format.has_second ==> opened.second@
                == file@.subrange(112, 144)),
            (Err(error), Some(fault)) => error == fault,
            _ => false,
        },
{
    let size: usize = if format.has_second {
        160
    } else {
        128
    };
    if file.len() < size {
        return Err(EnvelopeError::TooShort);
    }
    if !same_range(file, 0, format.magic.as_slice()) {
        return Err(EnvelopeError::Magic);
    }
    if read_le(file, 8, 2) != CONTAINER_VERSION {
        return Err(EnvelopeError::Version);
    }
    if read_le(file, 10, 2) != POSITIONED {
        return Err(EnvelopeError::Flags);
    }
    if read_le(file, 12, 4) != size as u64 {
        return Err(EnvelopeError::HeaderSize);
    }
    if read_le(file, size - 8, 8) != 0 {
        return Err(EnvelopeError::Reserved);
    }
    if !same_range(file, 16, layout.as_slice()) {
        return Err(EnvelopeError::Layout);
    }
    let length: u64 = read_le(file, size - 16, 8);
    if length > limit || length > MAX_PAYLOAD {
        return Err(EnvelopeError::PayloadTooLarge);
    }
    if size as u64 + length != file.len() as u64 {
        return Err(EnvelopeError::PayloadLength);
    }
    let expected = sha256(slice_subrange(file, size, file.len()));
    let found = digest_at(file, 80);
    if !same_range(found.as_slice(), 0, expected.as_slice()) {
        assert(found@.subrange(0, 32) =~= found@);
        return Err(EnvelopeError::PayloadDigest);
    }
    assert(found@.subrange(0, 32) =~= found@);
    let first = digest_at(file, 48);
    let second = if format.has_second {
        digest_at(file, 112)
    } else {
        [0; 32]
    };
    Ok(Opened { first, second, payload: size })
}

/// Checks that a digest is that of a source.
pub fn check_source(digest: &[u8; 32], source: &[u8]) -> (r: Result<(), EnvelopeError>)
    ensures
        r == (if digest@ == digest::sha256_of(source@) {
            Ok::<(), EnvelopeError>(())
        } else {
            Err(EnvelopeError::SourceDigest)
        }),
{
    let actual = sha256(source);
    assert(digest@.subrange(0, 32) =~= digest@);
    if !same_range(digest.as_slice(), 0, actual.as_slice()) {
        return Err(EnvelopeError::SourceDigest);
    }
    Ok(())
}

proof fn lemma_numbers(format: Format)
    ensures
        bytes::le_value(bytes::le_bytes(1, 2)) == 1,
        bytes::le_value(bytes::le_bytes(header_size(format), 4)) == header_size(format),
        bytes::le_value(bytes::le_bytes(0, 8)) == 0,
        bytes::le_bytes(1, 2).len() == 2,
        bytes::le_bytes(header_size(format), 4).len() == 4,
        bytes::le_bytes(0, 8).len() == 8,
{
    bytes::lemma_byte_ranges();
    bytes::law_le_bytes_read_back(1, 2);
    bytes::law_le_bytes_read_back(header_size(format), 4);
    bytes::law_le_bytes_read_back(0, 8);
}

/// A file that was written is accepted, and gives back its digests and its
/// payload.
pub proof fn law_envelopes_read_back(format: Format, labels: Labels, payload: Seq<u8>, limit: u64)
    requires
        payload.len() <= MAX_PAYLOAD,
        payload.len() <= limit,
    ensures
        digest::sha256_of(payload).len() == 32 ==> ({
            let file = header_of(
                format,
                labels.layout@,
                labels.first@,
                labels.second@,
                payload,
            ) + payload;
            &&& envelope_fault(format, labels.layout@, file, limit) is None
            &&& file.subrange(48, 80) == labels.first@
            &&& format.has_second ==> file.subrange(112, 144) == labels.second@
            &&& file.subrange(header_size(format), file.len() as int) == payload
        }),
{
    let (layout, first, second) = (labels.layout@, labels.first@, labels.second@);
    let file = header_of(format, layout, first, second, payload) + payload;
    let size = header_size(format);
    bytes::lemma_byte_ranges();
    lemma_numbers(format);
    bytes::law_le_bytes_read_back(payload.len() as int, 8);
    if digest::sha256_of(payload).len() == 32 {
        assert(file.subrange(0, 8) =~= format.magic@);
        assert(file.subrange(8, 10) =~= bytes::le_bytes(1, 2));
        assert(file.subrange(10, 12) =~= bytes::le_bytes(1, 2));
        assert(file.subrange(12, 16) =~= bytes::le_bytes(size, 4));
        assert(file.subrange(16, 48) =~= layout);
        assert(file.subrange(48, 80) =~= first);
        assert(file.subrange(80, 112) =~= digest::sha256_of(payload));
        if format.has_second {
            assert(file.subrange(112, 144) =~= second);
        }
        assert(file.subrange(size - 16, size - 8) =~= bytes::le_bytes(payload.len() as int, 8));
        assert(file.subrange(size - 8, size) =~= bytes::le_bytes(0, 8));
        assert(file.subrange(size, file.len() as int) =~= payload);
    }
}

impl EnvelopeError {
    /// What to tell about a refused file that is to hold an analysis.
    pub open spec fn analysis_message_spec(self) -> Seq<char> {
        match self {
            EnvelopeError::TooShort => "analysis file is shorter than its fixed header"@,
            EnvelopeError::Magic => "invalid analysis cache magic"@,
            EnvelopeError::Version => "unsupported analysis cache container version"@,
            EnvelopeError::Flags => "unsupported analysis cache flags"@,
            EnvelopeError::HeaderSize => "invalid analysis cache header size"@,
            EnvelopeError::Reserved => "analysis cache reserved header bytes are not zero"@,
            EnvelopeError::Layout => "analysis cache layout hash does not match the embedded schema"@,
            EnvelopeError::PayloadTooLarge => "analysis cache exceeds the 4 GiB payload limit"@,
            EnvelopeError::PayloadLength => "analysis cache payload length is invalid"@,
            EnvelopeError::PayloadDigest => "analysis payload digest mismatch"@,
            EnvelopeError::SourceDigest => "analysis source digest mismatch"@,
        }
    }

    /// What to tell about a refused file that is to hold an analysis.
    pub fn analysis_message(self) -> (message: &'static str)
        ensures
            message@ == self.analysis_message_spec(),
    {
        match self {
            EnvelopeError::TooShort => "analysis file is shorter than its fixed header",
            EnvelopeError::Magic => "invalid analysis cache magic",
            EnvelopeError::Version => "unsupported analysis cache container version",
            EnvelopeError::Flags => "unsupported analysis cache flags",
            EnvelopeError::HeaderSize => "invalid analysis cache header size",
            EnvelopeError::Reserved => "analysis cache reserved header bytes are not zero",
            EnvelopeError::Layout => "analysis cache layout hash does not match the embedded schema",
            EnvelopeError::PayloadTooLarge => "analysis cache exceeds the 4 GiB payload limit",
            EnvelopeError::PayloadLength => "analysis cache payload length is invalid",
            EnvelopeError::PayloadDigest => "analysis payload digest mismatch",
            EnvelopeError::SourceDigest => "analysis source digest mismatch",
        }
    }

    /// What to tell about a refused file that is to hold a source map.
    pub open spec fn source_map_message_spec(self) -> Seq<char> {
        match self {
            EnvelopeError::TooShort => "source-map sidecar is shorter than its fixed header"@,
            EnvelopeError::Magic => "invalid source-map sidecar magic"@,
            EnvelopeError::Version => "unsupported source-map sidecar container version"@,
            EnvelopeError::Flags => "unsupported source-map sidecar flags"@,
            EnvelopeError::HeaderSize => "invalid source-map sidecar header size"@,
            EnvelopeError::Reserved => "source-map sidecar reserved header bytes are not zero"@,
            EnvelopeError::Layout => "source-map sidecar layout hash does not match the embedded schema"@,
            EnvelopeError::PayloadTooLarge => "source-map sidecar exceeds the payload byte limit"@,
            EnvelopeError::PayloadLength => "source-map sidecar payload length is invalid"@,
            EnvelopeError::PayloadDigest => "source-map sidecar normalized payload digest mismatch"@,
            EnvelopeError::SourceDigest => "source-map sidecar generated source digest mismatch"@,
        }
    }

    /// What to tell about a refused file that is to hold a source map.
    pub fn source_map_message(self) -> (message: &'static str)
        ensures
            message@ == self.source_map_message_spec(),
    {
        match self {
            EnvelopeError::TooShort => "source-map sidecar is shorter than its fixed header",
            EnvelopeError::Magic => "invalid source-map sidecar magic",
            EnvelopeError::Version => "unsupported source-map sidecar container version",
            EnvelopeError::Flags => "unsupported source-map sidecar flags",
            EnvelopeError::HeaderSize => "invalid source-map sidecar header size",
            EnvelopeError::Reserved => "source-map sidecar reserved header bytes are not zero",
            EnvelopeError::Layout => "source-map sidecar layout hash does not match the embedded schema",
            EnvelopeError::PayloadTooLarge => "source-map sidecar exceeds the payload byte limit",
            EnvelopeError::PayloadLength => "source-map sidecar payload length is invalid",
            EnvelopeError::PayloadDigest => "source-map sidecar normalized payload digest mismatch",
            EnvelopeError::SourceDigest => "source-map sidecar generated source digest mismatch",
        }
    }
}

} // verus!
