//! Base64 variable-length quantities, the digits of a mapping segment.

use vstd::prelude::*;

use super::SourceMapError;

verus! {

/// The largest scale a continued digit may reach.
pub const MAX_SCALE: u64 = 0x8_0000_0000;

/// The bound that every magnitude stays under.
pub const MAGNITUDE_BOUND: u64 = 0x8000_0000;

/// The value of a base64 digit.
pub open spec fn base64_digit(byte: u8) -> Option<int> {
    if 0x41 <= byte <= 0x5a {
        Some(byte - 0x41)
    } else if 0x61 <= byte <= 0x7a {
        Some(byte - 0x61 + 26)
    } else if 0x30 <= byte <= 0x39 {
        Some(byte - 0x30 + 52)
    } else if byte == 0x2b {
        Some(62)
    } else if byte == 0x2f {
        Some(63)
    } else {
        None
    }
}

/// The payload that the digits from `pos` on spell, least significant first,
/// with the position after its last digit. Each digit carries five payload
/// bits, and 32 marks that another digit follows.
pub open spec fn payload_from(bytes: Seq<u8>, pos: int, payload: int, scale: int) -> Result<
    (int, int),
    SourceMapError,
>
    decreases bytes.len() - pos,
{
    if pos < 0 || pos >= bytes.len() {
        Err(SourceMapError::TruncatedVlq)
    } else {
        match base64_digit(bytes[pos]) {
            None => Err(SourceMapError::InvalidBase64),
            Some(digit) => {
                let sum = payload + (digit % 32) * scale;
                if digit < 32 {
                    Ok((sum, pos + 1))
                } else if scale * 32 > MAX_SCALE {
                    Err(SourceMapError::VlqRange)
                } else {
                    payload_from(bytes, pos + 1, sum, scale * 32)
                }
            },
        }
    }
}

/// The signed value of a payload: the lowest bit is the sign, and a negative
/// zero stands for the smallest 32-bit integer.
pub open spec fn signed_value(payload: int) -> Result<i64, SourceMapError> {
    let magnitude = payload / 2;
    if magnitude >= MAGNITUDE_BOUND {
        Err(SourceMapError::VlqRange)
    } else if payload % 2 == 0 {
        Ok(magnitude as i64)
    } else if magnitude == 0 {
        Ok(-0x8000_0000i64)
    } else {
        Ok((-magnitude) as i64)
    }
}

/// The values that the digits from `pos` on spell, after those in `read`.
pub open spec fn fields_from(bytes: Seq<u8>, pos: int, read: Seq<i64>) -> Result<
    Seq<i64>,
    SourceMapError,
>
    decreases bytes.len() - pos,
{
    if pos >= bytes.len() {
        Ok(read)
    } else {
        match payload_from(bytes, pos, 0, 1) {
            Err(error) => Err(error),
            Ok((payload, next)) => match signed_value(payload) {
                Err(error) => Err(error),
                Ok(value) => if next <= pos || next > bytes.len() {
                    Ok(read)
                } else {
                    fields_from(bytes, next, read.push(value))
                },
            },
        }
    }
}

/// The values of one segment.
pub open spec fn segment_fields(bytes: Seq<u8>) -> Result<Seq<i64>, SourceMapError> {
    fields_from(bytes, 0, Seq::empty())
}

/// Whether every value is a 32-bit signed integer.
pub open spec fn are_32_bit(values: Seq<i64>) -> bool {
    forall|i: int| 0 <= i < values.len() ==> -0x8000_0000 <= #[trigger] values[i] <= 0x7fff_ffff
}

/// Every value that a segment yields is a 32-bit integer.
pub proof fn lemma_fields_are_32_bit(bytes: Seq<u8>, pos: int, read: Seq<i64>)
    requires
        are_32_bit(read),
        0 <= pos,
    ensures
        fields_from(bytes, pos, read) matches Ok(fields) ==> are_32_bit(fields),
    decreases bytes.len() - pos,
{
    if pos < bytes.len() {
        if let Ok((payload, next)) = payload_from(bytes, pos, 0, 1) {
            lemma_payload_bounds(bytes, pos, 0, 1);
            if let Ok(value) = signed_value(payload) {
                if pos < next <= bytes.len() {
                    lemma_fields_are_32_bit(bytes, next, read.push(value));
                }
            }
        }
    }
}

/// A payload is never negative, and reading one moves forward.
proof fn lemma_payload_bounds(bytes: Seq<u8>, pos: int, payload: int, scale: int)
    requires
        0 <= pos,
        0 <= payload,
        0 < scale,
    ensures
        payload_from(bytes, pos, payload, scale) matches Ok((value, next)) ==> 0 <= value && pos
            < next <= bytes.len(),
    decreases bytes.len() - pos,
{
    if pos < bytes.len() {
        if let Some(digit) = base64_digit(bytes[pos]) {
            let sum = payload + (digit % 32) * scale;
            assert((digit % 32) * scale >= 0) by (nonlinear_arith)
                requires
                    digit % 32 >= 0,
                    scale > 0,
            ;
            if digit >= 32 && scale * 32 <= MAX_SCALE {
                lemma_payload_bounds(bytes, pos + 1, sum, scale * 32);
            }
        }
    }
}

/// The value of a base64 digit.
pub fn base64_value(byte: u8) -> (digit: Option<u8>)
    ensures
        digit is Some == base64_digit(byte) is Some,
        digit matches Some(d) ==> base64_digit(byte) == Some(d as int) && d < 64,
{
    if 0x41 <= byte && byte <= 0x5a {
        Some(byte - 0x41)
    } else if 0x61 <= byte && byte <= 0x7a {
        Some(byte - 0x61 + 26)
    } else if 0x30 <= byte && byte <= 0x39 {
        Some(byte - 0x30 + 52)
    } else if byte == 0x2b {
        Some(62)
    } else if byte == 0x2f {
        Some(63)
    } else {
        None
    }
}

fn read_payload(bytes: &[u8], from: usize) -> (r: Result<(u64, usize), SourceMapError>)
    requires
        from < bytes@.len(),
    ensures
        match (r, payload_from(bytes@, from as int, 0, 1)) {
            (Ok((payload, next)), Ok((value, after))) => payload == value && next == after && from
                < next <= bytes@.len(),
            (Err(a), Err(b)) => a == b,
            _ => false,
        },
{
    let mut cursor: usize = from;
    let mut payload: u64 = 0;
    let mut scale: u64 = 1;
    loop
        invariant
            from <= cursor <= bytes@.len(),
            1 <= scale <= MAX_SCALE,
            payload < scale,
            payload_from(bytes@, from as int, 0, 1) == payload_from(
                bytes@,
                cursor as int,
                payload as int,
                scale as int,
            ),
        decreases bytes@.len() - cursor,
    {
        if cursor >= bytes.len() {
            return Err(SourceMapError::TruncatedVlq);
        }
        let digit: u8 = match base64_value(bytes[cursor]) {
            Some(digit) => digit,
            None => {
                return Err(SourceMapError::InvalidBase64);
            },
        };
        let low: u64 = (digit % 32) as u64;
        assert(low * scale <= 31 * scale) by (nonlinear_arith)
            requires
                low <= 31,
                scale >= 1,
        ;
        payload = payload + low * scale;
        cursor += 1;
        if digit < 32 {
            return Ok((payload, cursor));
        }
        if scale * 32 > MAX_SCALE {
            return Err(SourceMapError::VlqRange);
        }
        scale = scale * 32;
    }
}

/// Decodes the values of one segment.
pub fn decode_segment(bytes: &[u8]) -> (r: Result<Vec<i64>, SourceMapError>)
    ensures
        match (r, segment_fields(bytes@)) {
            (Ok(fields), Ok(values)) => fields@ == values,
            (Err(a), Err(b)) => a == b,
            _ => false,
        },
        r matches Ok(fields) ==> are_32_bit(fields@),
{
    let mut output: Vec<i64> = Vec::new();
    let mut cursor: usize = 0;
    while cursor < bytes.len()
        invariant
            cursor <= bytes@.len(),
            segment_fields(bytes@) == fields_from(bytes@, cursor as int, output@),
        decreases bytes@.len() - cursor,
    {
        let (payload, next) = match read_payload(bytes, cursor) {
            Ok(read) => read,
            Err(error) => {
                return Err(error);
            },
        };
        let magnitude: u64 = payload / 2;
        if magnitude >= MAGNITUDE_BOUND {
            return Err(SourceMapError::VlqRange);
        }
        let value: i64 = if payload % 2 == 0 {
            magnitude as i64
        } else if magnitude == 0 {
            -0x8000_0000i64
        } else {
            -(magnitude as i64)
        };
        output.push(value);
        cursor = next;
    }
    proof {
        lemma_fields_are_32_bit(bytes@, 0, Seq::empty());
        assert(segment_fields(bytes@) == Ok::<Seq<i64>, SourceMapError>(output@));
    }
    Ok(output)
}

} // verus!
